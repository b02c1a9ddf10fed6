//! Maps kept in ascending order of their keys.

use vstd::prelude::*;

use crate::bytes::{
    bytes_le, bytes_not_after, lemma_bytes_le_antisymmetric, lemma_bytes_le_total,
    lemma_bytes_le_transitive,
};
use crate::crypto::types::{PublicKey, ServerId};
use crate::sorting::Ranked;

verus! {

/// A key whose rank tells it from every other key.
pub trait MapKey: Ranked {
    proof fn lemma_antisymmetric(a: Self::V, b: Self::V)
        requires
            Self::ranks_le(a, b),
            Self::ranks_le(b, a),
        ensures
            a == b,
    ;
}

/// Public keys rank by their bytes.
impl Ranked for PublicKey {
    open spec fn ranks_le(a: Seq<u8>, b: Seq<u8>) -> bool {
        bytes_le(a, b)
    }

    proof fn lemma_total(a: Seq<u8>, b: Seq<u8>) {
        lemma_bytes_le_total(a, b);
    }

    proof fn lemma_transitive(a: Seq<u8>, b: Seq<u8>, c: Seq<u8>) {
        lemma_bytes_le_transitive(a, b, c);
    }

    fn not_above(&self, other: &Self) -> (r: bool) {
        bytes_not_after(&self.0, &other.0)
    }
}

impl MapKey for PublicKey {
    proof fn lemma_antisymmetric(a: Seq<u8>, b: Seq<u8>) {
        lemma_bytes_le_antisymmetric(a, b);
    }
}

impl View for ServerId {
    type V = ServerId;

    open spec fn view(&self) -> ServerId {
        *self
    }
}

/// Server identifiers rank by their number.
impl Ranked for ServerId {
    open spec fn ranks_le(a: ServerId, b: ServerId) -> bool {
        a.0 <= b.0
    }

    proof fn lemma_total(a: ServerId, b: ServerId) {
    }

    proof fn lemma_transitive(a: ServerId, b: ServerId, c: ServerId) {
    }

    fn not_above(&self, other: &Self) -> (r: bool) {
        self.0 <= other.0
    }
}

impl MapKey for ServerId {
    proof fn lemma_antisymmetric(a: ServerId, b: ServerId) {
    }
}

/// Entries in strictly ascending order of their keys.
pub open spec fn ascending<K: MapKey, V>(es: Seq<(K::V, V)>) -> bool {
    forall|i: int, j: int|
        0 <= i < j < es.len() ==> K::ranks_le((#[trigger] es[i]).0, (#[trigger] es[j]).0) && es[i].0
            != es[j].0
}

/// The map that a list of entries stands for.
pub open spec fn map_of<A, V>(es: Seq<(A, V)>) -> Map<A, V>
    decreases es.len(),
{
    if es.len() == 0 {
        Map::empty()
    } else {
        map_of(es.drop_last()).insert(es.last().0, es.last().1)
    }
}

/// The entries of a map in ascending order of their keys.
pub open spec fn in_order<K: MapKey, V>(m: Map<K::V, V>) -> Seq<(K::V, V)> {
    choose|es: Seq<(K::V, V)>| ascending::<K, V>(es) && map_of(es) == m
}

/// A map from keys to values, in ascending order of the keys.
pub struct SortedMap<K: MapKey, V: View> {
    list: Vec<(K, V)>,
}

/// A map keyed by server.
pub type IdMap<V> = SortedMap<ServerId, V>;

/// A map keyed by public key.
pub type KeyMap<V> = SortedMap<PublicKey, V>;

spec fn pairs<K: MapKey, V: View>(s: Seq<(K, V)>) -> Seq<(K::V, V::V)> {
    Seq::new(s.len(), |i: int| (s[i].0@, s[i].1@))
}

impl<K: MapKey, V: View> View for SortedMap<K, V> {
    type V = Map<K::V, V::V>;

    open spec fn view(&self) -> Map<K::V, V::V> {
        map_of(self.entries())
    }
}

proof fn lemma_map_contains<A, V>(es: Seq<(A, V)>, k: A)
    ensures
        map_of(es).contains_key(k) <==> exists|i: int| 0 <= i < es.len() && (#[trigger] es[i]).0
            == k,
    decreases es.len(),
{
    if es.len() > 0 {
        let init = es.drop_last();
        lemma_map_contains(init, k);
        if map_of(init).contains_key(k) {
            let i = choose|i: int| 0 <= i < init.len() && (#[trigger] init[i]).0 == k;
            assert(es[i].0 == k);
        }
        if es.last().0 == k {
            assert(es[es.len() - 1].0 == k);
        }
        if exists|i: int| 0 <= i < es.len() && (#[trigger] es[i]).0 == k {
            let i = choose|i: int| 0 <= i < es.len() && (#[trigger] es[i]).0 == k;
            if i < es.len() - 1 {
                assert(init[i].0 == k);
            }
        }
    }
}

/// The keys of a map are those of its entries.
pub proof fn lemma_map_keys<K: MapKey, V>(es: Seq<(K::V, V)>, k: K::V)
    ensures
        map_of(es).contains_key(k) <==> exists|i: int| 0 <= i < es.len() && (#[trigger] es[i]).0
            == k,
{
    lemma_map_contains(es, k);
}

/// The value at a key is the one of its entry.
pub proof fn lemma_map_value<K: MapKey, V>(es: Seq<(K::V, V)>, i: int)
    requires
        ascending::<K, V>(es),
        0 <= i < es.len(),
    ensures
        map_of(es).contains_key(es[i].0),
        map_of(es)[es[i].0] == es[i].1,
    decreases es.len(),
{
    let init = es.drop_last();
    if i < es.len() - 1 {
        assert(ascending::<K, V>(init)) by {
            assert forall|a: int, b: int| 0 <= a < b < init.len() implies K::ranks_le(
                (#[trigger] init[a]).0,
                (#[trigger] init[b]).0,
            ) && init[a].0 != init[b].0 by {
                assert(init[a] == es[a] && init[b] == es[b]);
            }
        }
        lemma_map_value::<K, V>(init, i);
        assert(es[i].0 != es[es.len() - 1].0);
    }
}

proof fn lemma_insert_map<K: MapKey, V>(es: Seq<(K::V, V)>, p: int, k: K::V, v: V)
    requires
        0 <= p <= es.len(),
        forall|i: int| 0 <= i < es.len() ==> (#[trigger] es[i]).0 != k,
    ensures
        map_of(es.insert(p, (k, v))) == map_of(es).insert(k, v),
    decreases es.len(),
{
    let all = es.insert(p, (k, v));
    if p == es.len() {
        assert(all.drop_last() =~= es);
    } else {
        let init = es.drop_last();
        assert(all.drop_last() =~= init.insert(p, (k, v)));
        assert forall|i: int| 0 <= i < init.len() implies (#[trigger] init[i]).0 != k by {
            assert(init[i] == es[i]);
        }
        lemma_insert_map::<K, V>(init, p, k, v);
        assert(es.last() == es[es.len() - 1]);
        assert(map_of(all) =~= map_of(es).insert(k, v));
    }
}

proof fn lemma_update_map<K: MapKey, V>(es: Seq<(K::V, V)>, p: int, v: V)
    requires
        ascending::<K, V>(es),
        0 <= p < es.len(),
    ensures
        map_of(es.update(p, (es[p].0, v))) == map_of(es).insert(es[p].0, v),
    decreases es.len(),
{
    let k = es[p].0;
    let all = es.update(p, (k, v));
    let init = es.drop_last();
    if p == es.len() - 1 {
        assert(all.drop_last() =~= init);
        assert(map_of(all) =~= map_of(es).insert(k, v));
    } else {
        assert(all.drop_last() =~= init.update(p, (k, v)));
        assert(ascending::<K, V>(init)) by {
            assert forall|a: int, b: int| 0 <= a < b < init.len() implies K::ranks_le(
                (#[trigger] init[a]).0,
                (#[trigger] init[b]).0,
            ) && init[a].0 != init[b].0 by {
                assert(init[a] == es[a] && init[b] == es[b]);
            }
        }
        lemma_update_map::<K, V>(init, p, v);
        assert(es[p].0 != es[es.len() - 1].0);
        assert(map_of(all) =~= map_of(es).insert(k, v));
    }
}

proof fn lemma_remove_map<K: MapKey, V>(es: Seq<(K::V, V)>, p: int)
    requires
        ascending::<K, V>(es),
        0 <= p < es.len(),
    ensures
        map_of(es.remove(p)) == map_of(es).remove(es[p].0),
    decreases es.len(),
{
    let k = es[p].0;
    let all = es.remove(p);
    let init = es.drop_last();
    assert(ascending::<K, V>(init)) by {
        assert forall|a: int, b: int| 0 <= a < b < init.len() implies K::ranks_le(
            (#[trigger] init[a]).0,
            (#[trigger] init[b]).0,
        ) && init[a].0 != init[b].0 by {
            assert(init[a] == es[a] && init[b] == es[b]);
        }
    }
    if p == es.len() - 1 {
        assert(all =~= init);
        lemma_map_contains(init, k);
        if map_of(init).contains_key(k) {
            let i = choose|i: int| 0 <= i < init.len() && (#[trigger] init[i]).0 == k;
            assert(es[i].0 != es[p].0);
        }
        assert(map_of(all) =~= map_of(es).remove(k));
    } else {
        assert(all.drop_last() =~= init.remove(p));
        lemma_remove_map::<K, V>(init, p);
        assert(es[p].0 != es[es.len() - 1].0);
        assert(map_of(all) =~= map_of(es).remove(k));
    }
}

impl<K: MapKey, V: View> SortedMap<K, V> {
    #[verifier::type_invariant]
    spec fn is_ascending(&self) -> bool {
        ascending::<K, V::V>(pairs(self.list@))
    }

    /// The entries in ascending order of their keys.
    pub closed spec fn entries(&self) -> Seq<(K::V, V::V)> {
        pairs(self.list@)
    }

    /// The map without entries.
    pub fn new() -> (r: Self)
        ensures
            r@ == Map::<K::V, V::V>::empty(),
            r.entries() == Seq::<(K::V, V::V)>::empty(),
    {
        let r = SortedMap { list: Vec::new() };
        proof {
            assert(r.entries() =~= Seq::empty());
        }
        r
    }

    /// The number of entries.
    pub fn len(&self) -> (n: usize)
        ensures
            n == self.entries().len(),
            ascending::<K, V::V>(self.entries()),
            self.entries() == in_order::<K, V::V>(self@),
    {
        proof {
            use_type_invariant(self);
            let es = self.entries();
            let chosen = in_order::<K, V::V>(self@);
            assert(ascending::<K, V::V>(es) && map_of(es) == self@);
            assert(ascending::<K, V::V>(chosen) && map_of(chosen) == self@);
            law_entries_are_unique::<K, V::V>(es, chosen);
        }
        self.list.len()
    }

    /// Entry `i` in ascending order of the keys.
    pub fn at(&self, i: usize) -> (r: (&K, &V))
        requires
            i < self.entries().len(),
        ensures
            r.0@ == self.entries()[i as int].0,
            r.1@ == self.entries()[i as int].1,
    {
        (&self.list[i].0, &self.list[i].1)
    }

    /// The position of the first key that ranks no lower than `k`.
    fn position(&self, k: &K) -> (p: usize)
        ensures
            p <= self.list@.len(),
            forall|q: int| 0 <= q < p ==> !K::ranks_le(k@, #[trigger] pairs(self.list@)[q].0),
            p < self.list@.len() ==> K::ranks_le(k@, pairs(self.list@)[p as int].0),
    {
        let mut p: usize = 0;
        while p < self.list.len() && !k.not_above(&self.list[p].0)
            invariant
                p <= self.list@.len(),
                forall|q: int| 0 <= q < p ==> !K::ranks_le(k@, #[trigger] pairs(self.list@)[q].0),
            ensures
                p <= self.list@.len(),
                forall|q: int| 0 <= q < p ==> !K::ranks_le(k@, #[trigger] pairs(self.list@)[q].0),
                p < self.list@.len() ==> K::ranks_le(k@, pairs(self.list@)[p as int].0),
            decreases self.list@.len() - p,
        {
            p = p + 1;
        }
        p
    }

    /// The position of `k`, if it is among the keys.
    fn find(&self, k: &K) -> (r: Option<usize>)
        ensures
            match r {
                Some(p) => p < self.list@.len() && pairs(self.list@)[p as int].0 == k@,
                None => forall|i: int|
                    0 <= i < self.list@.len() ==> (#[trigger] pairs(self.list@)[i]).0 != k@,
            },
    {
        proof {
            use_type_invariant(self);
        }
        let p = self.position(k);
        let ghost es = pairs(self.list@);
        if p < self.list.len() && self.list[p].0.not_above(k) {
            proof {
                K::lemma_antisymmetric(k@, es[p as int].0);
            }
            Some(p)
        } else {
            proof {
                assert forall|i: int| 0 <= i < es.len() implies (#[trigger] es[i]).0 != k@ by {
                    K::lemma_total(k@, k@);
                    if i < p {
                        assert(!K::ranks_le(k@, es[i].0));
                    } else if i > p {
                        if es[i].0 == k@ {
                            assert(K::ranks_le(es[p as int].0, es[i].0));
                        }
                    }
                }
            }
            None
        }
    }

    /// The value at `k`.
    pub fn get(&self, k: &K) -> (r: Option<&V>)
        ensures
            match r {
                Some(v) => self@.contains_key(k@) && v@ == self@[k@],
                None => !self@.contains_key(k@),
            },
    {
        proof {
            use_type_invariant(self);
        }
        match self.find(k) {
            Some(p) => {
                proof {
                    lemma_map_value::<K, V::V>(pairs(self.list@), p as int);
                }
                Some(&self.list[p].1)
            },
            None => {
                proof {
                    lemma_map_contains(pairs(self.list@), k@);
                }
                None
            },
        }
    }

    /// Whether `k` is among the keys.
    pub fn contains_key(&self, k: &K) -> (r: bool)
        ensures
            r == self@.contains_key(k@),
    {
        self.get(k).is_some()
    }

    /// Put `v` at `k`, in place of what was there.
    pub fn insert(&mut self, k: K, v: V)
        ensures
            final(self)@ == old(self)@.insert(k@, v@),
    {
        proof {
            use_type_invariant(&*self);
        }
        let found = self.find(&k);
        let p = self.position(&k);
        let mut list: Vec<(K, V)> = Vec::new();
        std::mem::swap(&mut list, &mut self.list);
        let ghost es = pairs(list@);
        match found {
            Some(q) => {
                proof {
                    lemma_update_map::<K, V::V>(es, q as int, v@);
                    assert(es.update(q as int, (es[q as int].0, v@))[q as int].0 == k@);
                }
                list.set(q, (k, v));
                proof {
                    let now = pairs(list@);
                    assert(now =~= es.update(q as int, (es[q as int].0, v@)));
                    assert(ascending::<K, V::V>(now)) by {
                        assert forall|a: int, b: int| 0 <= a < b < now.len() implies K::ranks_le(
                            (#[trigger] now[a]).0,
                            (#[trigger] now[b]).0,
                        ) && now[a].0 != now[b].0 by {
                            assert(now[a].0 == es[a].0 && now[b].0 == es[b].0);
                        }
                    }
                }
            },
            None => {
                proof {
                    lemma_insert_map::<K, V::V>(es, p as int, k@, v@);
                }
                list.insert(p, (k, v));
                proof {
                    let now = pairs(list@);
                    assert(now =~= es.insert(p as int, (k@, v@)));
                    assert(ascending::<K, V::V>(now)) by {
                        assert forall|a: int, b: int| 0 <= a < b < now.len() implies K::ranks_le(
                            (#[trigger] now[a]).0,
                            (#[trigger] now[b]).0,
                        ) && now[a].0 != now[b].0 by {
                            lemma_insert_ordered::<K, V::V>(es, p as int, k@, v@, a, b);
                        }
                    }
                }
            },
        }
        self.list = list;
    }

    /// Take out what is at `k`.
    pub fn remove(&mut self, k: &K)
        ensures
            final(self)@ == old(self)@.remove(k@),
    {
        proof {
            use_type_invariant(&*self);
        }
        let found = self.find(k);
        let mut list: Vec<(K, V)> = Vec::new();
        std::mem::swap(&mut list, &mut self.list);
        let ghost es = pairs(list@);
        match found {
            Some(p) => {
                proof {
                    lemma_remove_map::<K, V::V>(es, p as int);
                }
                let _ = list.remove(p);
                proof {
                    let now = pairs(list@);
                    assert(now =~= es.remove(p as int));
                    assert(ascending::<K, V::V>(now)) by {
                        assert forall|a: int, b: int| 0 <= a < b < now.len() implies K::ranks_le(
                            (#[trigger] now[a]).0,
                            (#[trigger] now[b]).0,
                        ) && now[a].0 != now[b].0 by {
                            let a2 = if a < p {
                                a
                            } else {
                                a + 1
                            };
                            let b2 = if b < p {
                                b
                            } else {
                                b + 1
                            };
                            assert(now[a] == es[a2] && now[b] == es[b2]);
                        }
                    }
                }
            },
            None => {
                proof {
                    lemma_map_contains(es, k@);
                    assert(map_of(es).remove(k@) =~= map_of(es));
                }
            },
        }
        self.list = list;
    }
}

proof fn lemma_insert_ordered<K: MapKey, V>(
    es: Seq<(K::V, V)>,
    p: int,
    k: K::V,
    v: V,
    a: int,
    b: int,
)
    requires
        ascending::<K, V>(es),
        0 <= p <= es.len(),
        forall|i: int| 0 <= i < es.len() ==> (#[trigger] es[i]).0 != k,
        forall|q: int| 0 <= q < p ==> !K::ranks_le(k, (#[trigger] es[q]).0),
        p < es.len() ==> K::ranks_le(k, es[p].0),
        0 <= a < b < es.len() + 1,
    ensures
        K::ranks_le(es.insert(p, (k, v))[a].0, es.insert(p, (k, v))[b].0),
        es.insert(p, (k, v))[a].0 != es.insert(p, (k, v))[b].0,
{
    let now = es.insert(p, (k, v));
    if b < p {
        assert(now[a] == es[a] && now[b] == es[b]);
    } else if b == p {
        assert(now[a] == es[a]);
        K::lemma_total(k, es[a].0);
    } else if a < p {
        assert(now[a] == es[a] && now[b] == es[b - 1]);
    } else if a == p {
        assert(now[b] == es[b - 1]);
        if b - 1 > p {
            assert(K::ranks_le(es[p].0, es[b - 1].0));
            K::lemma_transitive(k, es[p].0, es[b - 1].0);
        }
    } else {
        assert(now[a] == es[a - 1] && now[b] == es[b - 1]);
    }
}

/// Two ascending lists that stand for one map are the same list.
pub proof fn law_entries_are_unique<K: MapKey, V>(a: Seq<(K::V, V)>, b: Seq<(K::V, V)>)
    requires
        ascending::<K, V>(a),
        ascending::<K, V>(b),
        map_of(a) == map_of(b),
    ensures
        a == b,
    decreases a.len(),
{
    if a.len() == 0 {
        if b.len() > 0 {
            lemma_map_value::<K, V>(b, 0);
        }
        assert(a =~= b);
    } else if b.len() == 0 {
        lemma_map_value::<K, V>(a, 0);
    } else {
        let x = a.len() - 1;
        let y = b.len() - 1;
        lemma_map_value::<K, V>(a, x);
        lemma_map_value::<K, V>(b, y);
        lemma_map_contains(a, b[y].0);
        lemma_map_contains(b, a[x].0);
        let i = choose|i: int| 0 <= i < a.len() && (#[trigger] a[i]).0 == b[y].0;
        let j = choose|j: int| 0 <= j < b.len() && (#[trigger] b[j]).0 == a[x].0;
        if i < x {
            assert(K::ranks_le(a[i].0, a[x].0) && a[i].0 != a[x].0);
            if j < y {
                assert(K::ranks_le(b[j].0, b[y].0));
                K::lemma_antisymmetric(a[i].0, a[x].0);
            }
        }
        assert(a[x].0 == b[y].0);
        lemma_remove_map::<K, V>(a, x);
        lemma_remove_map::<K, V>(b, y);
        let a2 = a.remove(x);
        let b2 = b.remove(y);
        assert(ascending::<K, V>(a2)) by {
            assert forall|m: int, n: int| 0 <= m < n < a2.len() implies K::ranks_le(
                (#[trigger] a2[m]).0,
                (#[trigger] a2[n]).0,
            ) && a2[m].0 != a2[n].0 by {
                assert(a2[m] == a[m] && a2[n] == a[n]);
            }
        }
        assert(ascending::<K, V>(b2)) by {
            assert forall|m: int, n: int| 0 <= m < n < b2.len() implies K::ranks_le(
                (#[trigger] b2[m]).0,
                (#[trigger] b2[n]).0,
            ) && b2[m].0 != b2[n].0 by {
                assert(b2[m] == b[m] && b2[n] == b[n]);
            }
        }
        law_entries_are_unique::<K, V>(a2, b2);
        assert(a =~= a2.push(a[x]));
        assert(b =~= b2.push(b[y]));
    }
}

/// Where `k` goes among ascending entries: behind those that rank below it.
proof fn lemma_place<K: MapKey, V>(es: Seq<(K::V, V)>, k: K::V, i: int) -> (p: int)
    requires
        0 <= i <= es.len(),
        forall|q: int| 0 <= q < i ==> !K::ranks_le(k, (#[trigger] es[q]).0),
    ensures
        0 <= p <= es.len(),
        forall|q: int| 0 <= q < p ==> !K::ranks_le(k, (#[trigger] es[q]).0),
        p < es.len() ==> K::ranks_le(k, es[p].0),
    decreases es.len() - i,
{
    if i < es.len() && !K::ranks_le(k, es[i].0) {
        lemma_place::<K, V>(es, k, i + 1)
    } else {
        i
    }
}

/// Every finite map has a list of its entries in ascending order.
pub proof fn law_finite_maps_can_be_listed<K: MapKey, V>(m: Map<K::V, V>)
    requires
        m.dom().finite(),
    ensures
        ascending::<K, V>(in_order::<K, V>(m)),
        map_of(in_order::<K, V>(m)) == m,
    decreases m.dom().len(),
{
    if m.dom().len() == 0 {
        let es = Seq::<(K::V, V)>::empty();
        assert(m =~= Map::empty());
        assert(ascending::<K, V>(es) && map_of(es) == m);
    } else {
        let k = m.dom().choose();
        let v = m[k];
        let rest = m.remove(k);
        law_finite_maps_can_be_listed::<K, V>(rest);
        let es = in_order::<K, V>(rest);
        lemma_map_contains(es, k);
        let p = lemma_place::<K, V>(es, k, 0);
        let now = es.insert(p, (k, v));
        lemma_insert_map::<K, V>(es, p, k, v);
        assert forall|a: int, b: int| 0 <= a < b < now.len() implies K::ranks_le(
            (#[trigger] now[a]).0,
            (#[trigger] now[b]).0,
        ) && now[a].0 != now[b].0 by {
            lemma_insert_ordered::<K, V>(es, p, k, v, a, b);
        }
        assert(rest.insert(k, v) =~= m);
        assert(ascending::<K, V>(now) && map_of(now) == m);
    }
}

/// The values of a list of entries.
pub open spec fn values_of<A, V>(es: Seq<(A, V)>) -> Seq<V> {
    Seq::new(es.len(), |i: int| es[i].1)
}

/// The values of a map, listed in ascending order of the keys, are those at any
/// list of its keys, up to their order.
pub proof fn law_values_at_keys<K: MapKey, V>(m: Map<K::V, V>, ks: Seq<K::V>)
    requires
        m.dom().finite(),
        ks.no_duplicates(),
        forall|k: K::V| #[trigger] m.contains_key(k) <==> ks.contains(k),
    ensures
        values_of(in_order::<K, V>(m)).to_multiset() == ks.map_values(
            |k: K::V| m[k],
        ).to_multiset(),
{
    broadcast use vstd::seq_lib::group_to_multiset_ensures;

    law_finite_maps_can_be_listed::<K, V>(m);
    let es = in_order::<K, V>(m);
    let own = Seq::new(es.len(), |i: int| es[i].0);
    let f = |k: K::V| m[k];
    assert(own.no_duplicates());
    own.lemma_multiset_has_no_duplicates();
    ks.lemma_multiset_has_no_duplicates();
    assert forall|k: K::V| own.contains(k) <==> ks.contains(k) by {
        lemma_map_contains(es, k);
        if m.contains_key(k) {
            let i = choose|i: int| 0 <= i < es.len() && (#[trigger] es[i]).0 == k;
            assert(own[i] == k);
        }
        if own.contains(k) {
            let i = choose|i: int| 0 <= i < own.len() && own[i] == k;
            assert(es[i].0 == k);
        }
    }
    assert forall|k: K::V| own.to_multiset().count(k) == ks.to_multiset().count(k) by {
        if own.contains(k) {
            assert(own.to_multiset().contains(k) && ks.to_multiset().contains(k));
        }
    }
    assert(own.to_multiset() =~= ks.to_multiset());
    crate::sorting::lemma_images(own, ks, f);
    assert(own.map_values(f) =~= values_of(es)) by {
        assert forall|i: int| 0 <= i < es.len() implies f(own[i]) == es[i].1 by {
            lemma_map_value::<K, V>(es, i);
        }
    }
}

} // verus!
