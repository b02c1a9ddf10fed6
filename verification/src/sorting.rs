//! Stable sorting by a total preorder on views.

use vstd::prelude::*;

verus! {

/// An optional value as the contracts see it.
pub open spec fn seen<T: View>(o: Option<T>) -> Option<T::V> {
    match o {
        Some(v) => Some(v@),
        None => None,
    }
}

/// The views of the elements of `s`.
pub open spec fn views<T: View>(s: Seq<T>) -> Seq<T::V> {
    Seq::new(s.len(), |i: int| s[i]@)
}

/// A type whose values are ranked by a total preorder on their views.
pub trait Ranked: View + Sized {
    /// `a` ranks no higher than `b`.
    spec fn ranks_le(a: Self::V, b: Self::V) -> bool;

    proof fn lemma_total(a: Self::V, b: Self::V)
        ensures
            Self::ranks_le(a, b) || Self::ranks_le(b, a),
    ;

    proof fn lemma_transitive(a: Self::V, b: Self::V, c: Self::V)
        requires
            Self::ranks_le(a, b),
            Self::ranks_le(b, c),
        ensures
            Self::ranks_le(a, c),
    ;

    fn not_above(&self, other: &Self) -> (r: bool)
        ensures
            r == Self::ranks_le(self@, other@),
    ;
}

/// `s` with `x` put in front of the first element that it ranks no higher than.
pub open spec fn placed<T: Ranked>(x: T::V, s: Seq<T::V>) -> Seq<T::V>
    decreases s.len(),
{
    if s.len() == 0 {
        seq![x]
    } else if T::ranks_le(x, s[0]) {
        seq![x] + s
    } else {
        seq![s[0]] + placed::<T>(x, s.drop_first())
    }
}

/// `s` in rank order, elements of one rank in the order in which they come.
pub open spec fn sorted<T: Ranked>(s: Seq<T::V>) -> Seq<T::V>
    decreases s.len(),
{
    if s.len() == 0 {
        Seq::empty()
    } else {
        placed::<T>(s[0], sorted::<T>(s.drop_first()))
    }
}

/// No element ranks higher than a later one.
pub open spec fn in_rank_order<T: Ranked>(s: Seq<T::V>) -> bool {
    forall|i: int, j: int| 0 <= i < j < s.len() ==> T::ranks_le(#[trigger] s[i], #[trigger] s[j])
}

/// Elements of one rank are the same.
pub open spec fn ranks_tell_apart<T: Ranked>(s: Seq<T::V>) -> bool {
    forall|i: int, j: int|
        0 <= i < s.len() && 0 <= j < s.len() && T::ranks_le(#[trigger] s[i], #[trigger] s[j])
            && T::ranks_le(s[j], s[i]) ==> s[i] == s[j]
}

/// The elements of `s` that rank with `k`.
pub open spec fn rank_class<T: Ranked>(s: Seq<T::V>, k: T::V) -> Seq<T::V>
    decreases s.len(),
{
    if s.len() == 0 {
        Seq::empty()
    } else if T::ranks_le(s[0], k) && T::ranks_le(k, s[0]) {
        seq![s[0]] + rank_class::<T>(s.drop_first(), k)
    } else {
        rank_class::<T>(s.drop_first(), k)
    }
}

/// Placing an element is inserting it where the search stops.
proof fn lemma_placed_at<T: Ranked>(x: T::V, s: Seq<T::V>, p: int)
    requires
        0 <= p <= s.len(),
        forall|q: int| 0 <= q < p ==> !T::ranks_le(x, #[trigger] s[q]),
        p < s.len() ==> T::ranks_le(x, s[p]),
    ensures
        placed::<T>(x, s) == s.insert(p, x),
    decreases s.len(),
{
    if s.len() == 0 {
        assert(s.insert(p, x) =~= seq![x]);
    } else if p == 0 {
        assert(s.insert(p, x) =~= seq![x] + s);
    } else {
        assert(!T::ranks_le(x, s[0]));
        assert forall|q: int| 0 <= q < p - 1 implies !T::ranks_le(
            x,
            #[trigger] s.drop_first()[q],
        ) by {
            assert(s.drop_first()[q] == s[q + 1]);
        }
        lemma_placed_at::<T>(x, s.drop_first(), p - 1);
        assert(s.insert(p, x) =~= seq![s[0]] + s.drop_first().insert(p - 1, x));
    }
}

proof fn lemma_placed<T: Ranked>(x: T::V, s: Seq<T::V>)
    ensures
        placed::<T>(x, s).to_multiset() == s.to_multiset().insert(x),
        placed::<T>(x, s).len() == s.len() + 1,
    decreases s.len(),
{
    broadcast use vstd::seq_lib::group_to_multiset_ensures;

    if s.len() == 0 {
        assert(s =~= Seq::empty());
        assert(seq![x] =~= s.push(x));
    } else if T::ranks_le(x, s[0]) {
        lemma_front(x, s);
    } else {
        lemma_placed::<T>(x, s.drop_first());
        lemma_front(s[0], placed::<T>(x, s.drop_first()));
        lemma_front(s[0], s.drop_first());
        assert(s =~= seq![s[0]] + s.drop_first());
        assert(placed::<T>(x, s).to_multiset() =~= s.to_multiset().insert(x));
    }
}

proof fn lemma_front<A>(x: A, s: Seq<A>)
    ensures
        (seq![x] + s).to_multiset() == s.to_multiset().insert(x),
{
    broadcast use vstd::seq_lib::group_to_multiset_ensures;

    let t = seq![x] + s;
    assert(t.remove(0) =~= s);
    assert(t[0] == x);
    vstd::seq_lib::to_multiset_remove(t, 0);
    assert(t.contains(x));
    assert(t.to_multiset().count(x) > 0);
    assert(t.to_multiset() =~= s.to_multiset().insert(x));
}

/// Sorting keeps the elements.
pub proof fn law_sorting_permutes<T: Ranked>(s: Seq<T::V>)
    ensures
        sorted::<T>(s).to_multiset() == s.to_multiset(),
        sorted::<T>(s).len() == s.len(),
    decreases s.len(),
{
    if s.len() > 0 {
        law_sorting_permutes::<T>(s.drop_first());
        lemma_placed::<T>(s[0], sorted::<T>(s.drop_first()));
        lemma_front(s[0], s.drop_first());
        assert(s =~= seq![s[0]] + s.drop_first());
    } else {
        assert(s =~= Seq::empty());
    }
}

/// Where `placed` puts an element.
proof fn lemma_placed_somewhere<T: Ranked>(x: T::V, s: Seq<T::V>) -> (p: int)
    ensures
        0 <= p <= s.len(),
        placed::<T>(x, s) == s.insert(p, x),
        forall|q: int| 0 <= q < p ==> !T::ranks_le(x, #[trigger] s[q]),
    decreases s.len(),
{
    if s.len() == 0 || T::ranks_le(x, s[0]) {
        lemma_placed_at::<T>(x, s, 0);
        0
    } else {
        let p = lemma_placed_somewhere::<T>(x, s.drop_first());
        assert(s.insert(p + 1, x) =~= seq![s[0]] + s.drop_first().insert(p, x));
        assert forall|q: int| 0 <= q < p + 1 implies !T::ranks_le(x, #[trigger] s[q]) by {
            if q > 0 {
                assert(s.drop_first()[q - 1] == s[q]);
            }
        }
        p + 1
    }
}

/// The positions that the elements of the sorted sequence had. Elements of one
/// rank keep their order.
pub proof fn lemma_sorted_positions<T: Ranked>(s: Seq<T::V>) -> (at: Seq<int>)
    ensures
        at.len() == s.len(),
        sorted::<T>(s).len() == s.len(),
        at.no_duplicates(),
        forall|i: int|
            0 <= i < s.len() ==> 0 <= #[trigger] at[i] < s.len() && sorted::<T>(s)[i] == s[at[i]],
        forall|i: int, j: int|
            0 <= i < j < s.len() && T::ranks_le(sorted::<T>(s)[j], sorted::<T>(s)[i])
                ==> #[trigger] at[i] < #[trigger] at[j],
    decreases s.len(),
{
    if s.len() == 0 {
        Seq::empty()
    } else {
        let rest = s.drop_first();
        let before = lemma_sorted_positions::<T>(rest);
        let p = lemma_placed_somewhere::<T>(s[0], sorted::<T>(rest));
        let moved = before.map_values(|j: int| j + 1);
        let at = moved.insert(p, 0);
        assert forall|i: int| 0 <= i < s.len() implies 0 <= #[trigger] at[i] < s.len()
            && sorted::<T>(s)[i] == s[at[i]] by {
            if i < p {
                assert(at[i] == before[i] + 1);
                assert(rest[before[i]] == s[at[i]]);
            } else if i > p {
                assert(at[i] == before[i - 1] + 1);
                assert(rest[before[i - 1]] == s[at[i]]);
            }
        }
        assert forall|i: int, j: int| 0 <= i < at.len() && 0 <= j < at.len() && i != j implies at[i]
            != at[j] by {
            let a = if i < p {
                i
            } else {
                i - 1
            };
            let b = if j < p {
                j
            } else {
                j - 1
            };
            if i != p && j != p {
                assert(at[i] == before[a] + 1 && at[j] == before[b] + 1);
                assert(before[a] != before[b]);
            } else if i != p {
                assert(at[i] == before[a] + 1 && before[a] >= 0);
            } else {
                assert(at[j] == before[b] + 1 && before[b] >= 0);
            }
        }
        let out = sorted::<T>(s);
        let some = sorted::<T>(rest);
        assert forall|i: int, j: int|
            0 <= i < j < s.len() && T::ranks_le(out[j], out[i]) implies #[trigger] at[i]
            < #[trigger] at[j] by {
            let a = if i < p {
                i
            } else {
                i - 1
            };
            let b = if j < p {
                j
            } else {
                j - 1
            };
            if i == p {
                assert(at[j] == before[b] + 1 && before[b] >= 0);
            } else if j == p {
                assert(out[i] == some[i]);
            } else {
                assert(out[i] == some[a] && out[j] == some[b]);
                assert(at[i] == before[a] + 1 && at[j] == before[b] + 1);
            }
        }
        at
    }
}

/// Every element of the sorted sequence is one of the elements sorted.
pub proof fn lemma_sorted_from<T: Ranked>(s: Seq<T::V>, i: int) -> (j: int)
    requires
        0 <= i < sorted::<T>(s).len(),
    ensures
        0 <= j < s.len(),
        s[j] == sorted::<T>(s)[i],
{
    broadcast use vstd::seq_lib::group_to_multiset_ensures;

    law_sorting_permutes::<T>(s);
    let x = sorted::<T>(s)[i];
    assert(sorted::<T>(s).contains(x));
    assert(sorted::<T>(s).to_multiset().count(x) > 0);
    assert(s.contains(x));
    choose|j: int| 0 <= j < s.len() && s[j] == x
}

/// Equal multisets have equal images.
pub proof fn lemma_images<A, B>(a: Seq<A>, b: Seq<A>, f: spec_fn(A) -> B)
    requires
        a.to_multiset() == b.to_multiset(),
    ensures
        a.map_values(f).to_multiset() == b.map_values(f).to_multiset(),
    decreases a.len(),
{
    broadcast use vstd::seq_lib::group_to_multiset_ensures;

    assert(a.len() == a.to_multiset().len());
    assert(b.len() == b.to_multiset().len());
    if a.len() > 0 {
        let x = a.last();
        assert(a[a.len() - 1] == x);
        assert(a.contains(x));
        assert(b.to_multiset().count(x) > 0);
        let k = choose|k: int| 0 <= k < b.len() && b[k] == x;
        vstd::seq_lib::to_multiset_remove(a, a.len() - 1);
        vstd::seq_lib::to_multiset_remove(b, k);
        let a2 = a.remove(a.len() - 1);
        let b2 = b.remove(k);
        lemma_images(a2, b2, f);
        let fa = a.map_values(f);
        let fb = b.map_values(f);
        assert(fa.remove(a.len() - 1) =~= a2.map_values(f));
        assert(fb.remove(k) =~= b2.map_values(f));
        vstd::seq_lib::to_multiset_remove(fa, a.len() - 1);
        vstd::seq_lib::to_multiset_remove(fb, k);
        assert(fa[a.len() - 1] == f(x));
        assert(fb[k] == f(x));
        assert(fa.contains(f(x)));
        assert(fb.contains(f(x)));
        assert(fa.to_multiset().count(f(x)) > 0);
        assert(fb.to_multiset().count(f(x)) > 0);
        assert(fa.to_multiset() =~= fa.to_multiset().remove(f(x)).insert(f(x)));
        assert(fb.to_multiset() =~= fb.to_multiset().remove(f(x)).insert(f(x)));
    } else {
        assert(a.map_values(f) =~= Seq::empty());
        assert(b.map_values(f) =~= Seq::empty());
    }
}

proof fn lemma_placed_ordered<T: Ranked>(x: T::V, s: Seq<T::V>)
    requires
        in_rank_order::<T>(s),
    ensures
        in_rank_order::<T>(placed::<T>(x, s)),
        forall|y: T::V|
            T::ranks_le(y, x) && (s.len() > 0 ==> T::ranks_le(y, s[0])) ==> #[trigger] T::ranks_le(
                y,
                placed::<T>(x, s)[0],
            ),
    decreases s.len(),
{
    let r = placed::<T>(x, s);
    if s.len() == 0 {
    } else if T::ranks_le(x, s[0]) {
        assert forall|i: int, j: int| 0 <= i < j < r.len() implies T::ranks_le(
            #[trigger] r[i],
            #[trigger] r[j],
        ) by {
            if i == 0 {
                assert(r[j] == s[j - 1]);
                if j > 1 {
                    assert(T::ranks_le(s[0], s[j - 1]));
                    T::lemma_transitive(x, s[0], s[j - 1]);
                }
            } else {
                assert(r[i] == s[i - 1]);
                assert(r[j] == s[j - 1]);
            }
        }
    } else {
        let t = s.drop_first();
        assert(in_rank_order::<T>(t)) by {
            assert forall|i: int, j: int| 0 <= i < j < t.len() implies T::ranks_le(
                #[trigger] t[i],
                #[trigger] t[j],
            ) by {
                assert(t[i] == s[i + 1]);
                assert(t[j] == s[j + 1]);
            }
        }
        lemma_placed_ordered::<T>(x, t);
        let rt = placed::<T>(x, t);
        T::lemma_total(x, s[0]);
        assert(T::ranks_le(s[0], x));
        if t.len() > 0 {
            assert(t[0] == s[1]);
            assert(T::ranks_le(s[0], s[1]));
        }
        lemma_placed::<T>(x, t);
        assert(T::ranks_le(s[0], rt[0]));
        assert forall|i: int, j: int| 0 <= i < j < r.len() implies T::ranks_le(
            #[trigger] r[i],
            #[trigger] r[j],
        ) by {
            assert(r[j] == rt[j - 1]);
            if i == 0 {
                if j > 1 {
                    assert(T::ranks_le(rt[0], rt[j - 1]));
                    T::lemma_transitive(s[0], rt[0], rt[j - 1]);
                }
            } else {
                assert(r[i] == rt[i - 1]);
            }
        }
    }
}

/// Sorting puts the elements in rank order.
pub proof fn law_sorting_orders<T: Ranked>(s: Seq<T::V>)
    ensures
        in_rank_order::<T>(sorted::<T>(s)),
    decreases s.len(),
{
    if s.len() > 0 {
        law_sorting_orders::<T>(s.drop_first());
        lemma_placed_ordered::<T>(s[0], sorted::<T>(s.drop_first()));
    }
}

proof fn lemma_one_order<T: Ranked>(a: Seq<T::V>, b: Seq<T::V>)
    requires
        in_rank_order::<T>(a),
        in_rank_order::<T>(b),
        a.to_multiset() == b.to_multiset(),
        ranks_tell_apart::<T>(a),
    ensures
        a == b,
    decreases a.len(),
{
    broadcast use vstd::seq_lib::group_to_multiset_ensures;

    assert(a.len() == a.to_multiset().len());
    assert(b.len() == b.to_multiset().len());
    if a.len() == 0 {
        assert(a =~= b);
    } else {
        T::lemma_total(a[0], a[0]);
        T::lemma_total(b[0], b[0]);
        assert(a.contains(a[0]) && a.to_multiset().count(a[0]) > 0);
        assert(b.contains(b[0]) && b.to_multiset().count(b[0]) > 0);
        assert(b.contains(a[0]));
        assert(a.contains(b[0]));
        let i = choose|i: int| 0 <= i < b.len() && b[i] == a[0];
        let j = choose|j: int| 0 <= j < a.len() && a[j] == b[0];
        assert(T::ranks_le(b[0], b[i]));
        assert(T::ranks_le(a[0], a[j]));
        assert(a[0] == b[0]);
        let ra = a.drop_first();
        let rb = b.drop_first();
        vstd::seq_lib::to_multiset_remove(a, 0);
        vstd::seq_lib::to_multiset_remove(b, 0);
        assert(a.remove(0) =~= ra);
        assert(b.remove(0) =~= rb);
        assert(ranks_tell_apart::<T>(ra)) by {
            assert forall|m: int, n: int|
                0 <= m < ra.len() && 0 <= n < ra.len() && T::ranks_le(
                    #[trigger] ra[m],
                    #[trigger] ra[n],
                ) && T::ranks_le(ra[n], ra[m]) implies ra[m] == ra[n] by {
                assert(ra[m] == a[m + 1] && ra[n] == a[n + 1]);
            }
        }
        assert(in_rank_order::<T>(ra)) by {
            assert forall|m: int, n: int| 0 <= m < n < ra.len() implies T::ranks_le(
                #[trigger] ra[m],
                #[trigger] ra[n],
            ) by {
                assert(ra[m] == a[m + 1] && ra[n] == a[n + 1]);
            }
        }
        assert(in_rank_order::<T>(rb)) by {
            assert forall|m: int, n: int| 0 <= m < n < rb.len() implies T::ranks_le(
                #[trigger] rb[m],
                #[trigger] rb[n],
            ) by {
                assert(rb[m] == b[m + 1] && rb[n] == b[n + 1]);
            }
        }
        lemma_one_order::<T>(ra, rb);
        assert(a =~= seq![a[0]] + ra);
        assert(b =~= seq![b[0]] + rb);
    }
}

/// Elements of distinct rank sort to one sequence, whatever order they come in.
pub proof fn law_sorting_ignores_order<T: Ranked>(a: Seq<T::V>, b: Seq<T::V>)
    requires
        a.to_multiset() == b.to_multiset(),
        ranks_tell_apart::<T>(a),
    ensures
        sorted::<T>(a) == sorted::<T>(b),
{
    law_sorting_permutes::<T>(a);
    law_sorting_permutes::<T>(b);
    law_sorting_orders::<T>(a);
    law_sorting_orders::<T>(b);
    let x = sorted::<T>(a);
    assert(ranks_tell_apart::<T>(x)) by {
        assert forall|m: int, n: int|
            0 <= m < x.len() && 0 <= n < x.len() && T::ranks_le(#[trigger] x[m], #[trigger] x[n])
                && T::ranks_le(x[n], x[m]) implies x[m] == x[n] by {
            let i = lemma_sorted_from::<T>(a, m);
            let j = lemma_sorted_from::<T>(a, n);
            assert(a[i] == x[m] && a[j] == x[n]);
        }
    }
    lemma_one_order::<T>(x, sorted::<T>(b));
}

proof fn lemma_placed_class<T: Ranked>(x: T::V, s: Seq<T::V>, k: T::V)
    ensures
        rank_class::<T>(placed::<T>(x, s), k) == rank_class::<T>(seq![x] + s, k),
    decreases s.len(),
{
    let front = seq![x] + s;
    assert(front.drop_first() =~= s);
    if s.len() == 0 {
        assert(front =~= seq![x]);
    } else if !T::ranks_le(x, s[0]) {
        let t = s.drop_first();
        let r = placed::<T>(x, s);
        assert(r.drop_first() =~= placed::<T>(x, t));
        assert(r[0] == s[0]);
        lemma_placed_class::<T>(x, t, k);
        assert((seq![x] + t).drop_first() =~= t);
        assert((seq![x] + t)[0] == x);
        let class = rank_class::<T>(t, k);
        assert(rank_class::<T>(front, k) == if T::ranks_le(x, k) && T::ranks_le(k, x) {
            seq![x] + rank_class::<T>(s, k)
        } else {
            rank_class::<T>(s, k)
        });
        assert(rank_class::<T>(seq![x] + t, k) == if T::ranks_le(x, k) && T::ranks_le(k, x) {
            seq![x] + class
        } else {
            class
        });
        if T::ranks_le(x, k) && T::ranks_le(k, x) && T::ranks_le(s[0], k) && T::ranks_le(k, s[0]) {
            T::lemma_transitive(x, k, s[0]);
        }
    }
}

/// Sorting is stable: the elements of each rank keep their order.
pub proof fn law_sorting_is_stable<T: Ranked>(s: Seq<T::V>, k: T::V)
    ensures
        rank_class::<T>(sorted::<T>(s), k) == rank_class::<T>(s, k),
    decreases s.len(),
{
    if s.len() > 0 {
        let t = s.drop_first();
        law_sorting_is_stable::<T>(t, k);
        lemma_placed_class::<T>(s[0], sorted::<T>(t), k);
        assert((seq![s[0]] + sorted::<T>(t)).drop_first() =~= sorted::<T>(t));
    }
}

/// Exchange elements `j` and `j + 1`.
fn swap_with_next<T>(s: &mut [T], j: usize)
    requires
        j + 1 < old(s)@.len(),
    ensures
        final(s)@ == old(s)@.update(j as int, old(s)@[j + 1]).update(j + 1, old(s)@[j as int]),
{
    let n = s.len();
    proof {
        assert(j + 1 < n);
    }
    let (a, b) = s.split_at_mut(j + 1);
    std::mem::swap(&mut a[j], &mut b[0]);
}

/// Sort in place by rank, keeping the order of elements of one rank.
pub fn stable_sort_slice<T: Ranked>(s: &mut [T])
    ensures
        views(final(s)@) == sorted::<T>(views(old(s)@)),
        final(s)@.len() == old(s)@.len(),
{
    let ghost all = views(s@);
    let n = s.len();
    let mut i: usize = n;
    proof {
        assert(all.skip(n as int) =~= Seq::empty());
        assert(views(s@).skip(n as int) =~= Seq::empty());
    }
    while i > 0
        invariant
            i <= n,
            n == s@.len(),
            n == all.len(),
            views(s@).take(i as int) == all.take(i as int),
            views(s@).skip(i as int) == sorted::<T>(all.skip(i as int)),
        decreases i,
    {
        i = i - 1;
        let ghost x = views(s@)[i as int];
        let ghost rest = views(s@).skip(i + 1);
        let ghost before = views(s@);
        let mut j: usize = i;
        proof {
            assert(views(s@) =~= before.take(i as int) + rest.insert(0, x));
        }
        while j + 1 < n
            invariant_except_break
                i <= j < n,
                n == s@.len(),
                n == before.len(),
                rest == before.skip(i + 1),
                x == before[i as int],
                views(s@) == before.take(i as int) + rest.insert(j - i, x),
                forall|q: int| 0 <= q < j - i ==> !T::ranks_le(x, #[trigger] rest[q]),
            ensures
                i <= j < n,
                n == s@.len(),
                views(s@) == before.take(i as int) + rest.insert(j - i, x),
                forall|q: int| 0 <= q < j - i ==> !T::ranks_le(x, #[trigger] rest[q]),
                j - i < rest.len() ==> T::ranks_le(x, rest[j - i]),
            decreases n - j,
        {
            let ghost now = views(s@);
            let ghost k = j - i;
            proof {
                let mid = rest.insert(k, x);
                assert(mid[k] == x && mid[k + 1] == rest[k]);
                assert(now[j as int] == mid[k] && now[j + 1] == mid[k + 1]);
                assert(now[j as int] == s@[j as int]@ && now[j + 1] == s@[j + 1]@);
            }
            if s[j].not_above(&s[j + 1]) {
                break;
            }
            swap_with_next(s, j);
            j = j + 1;
            proof {
                assert(views(s@) =~= now.update(j - 1, now[j as int]).update(j as int, now[j - 1]));
                assert(rest.insert(k + 1, x) =~= rest.insert(k, x).update(k, rest[k]).update(
                    k + 1,
                    x,
                ));
                assert(views(s@) =~= before.take(i as int) + rest.insert(j - i, x));
            }
        }
        proof {
            lemma_placed_at::<T>(x, rest, j - i);
            assert(views(s@).skip(i as int) =~= rest.insert(j - i, x));
            assert(views(s@).take(i as int) =~= before.take(i as int));
            assert(before.take(i as int) =~= all.take(i + 1).take(i as int));
            assert(all.take(i + 1).take(i as int) =~= all.take(i as int));
            assert(before.take(i + 1)[i as int] == x);
            assert(all.skip(i as int)[0] == x);
            assert(all.skip(i as int).drop_first() =~= all.skip(i + 1));
        }
    }
    proof {
        assert(views(s@).skip(0) =~= views(s@));
        assert(all.skip(0) =~= all);
    }
}

} // verus!
