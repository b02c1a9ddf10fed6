//! Laws of the table: what insertions leave in it, how tables add up, and when
//! peeling gives the inserted entries back.

use vstd::arithmetic::div_mod::{lemma_add_mod_noop, lemma_mod_twice, lemma_small_mod};
use vstd::prelude::*;

use crate::auction::iblt::{
    empty_table, hit_count, hit_sum, lemma_block, lemma_block_bound, lemma_block_fits,
    lemma_cell_index, lemma_total_drops, total, unpack_all, Entry, IbltError, Packed, Table,
    KEY_BYTES,
};
use crate::bytes::lemma_le_seq_len;
use crate::crypto::fields::{
    all_canonical, canonical, law_add_sub_cancel, vadd, P, PACK_BYTES, PACK_LIMIT,
};
use crate::sums::{lemma_sum_adds, lemma_sum_same, lemma_sum_zero, sum};

verus! {

/// Every entry fits in seven-byte components and carries `xi` values.
pub open spec fn all_fit(es: Seq<Packed>, xi: nat) -> bool {
    forall|i: int| 0 <= i < es.len() ==> (#[trigger] es[i]).fits(xi)
}

/// The entries can be peeled one after the other: each has a cell that none of
/// the later ones occupies.
pub open spec fn in_peel_order(es: Seq<Packed>, gamma: nat, delta: nat) -> bool {
    forall|i: int| 0 <= i < es.len() ==> #[trigger] sticks_out(es, i, gamma, delta)
}

/// Entry `i` has a cell that none of the later entries occupies.
pub open spec fn sticks_out(es: Seq<Packed>, i: int, gamma: nat, delta: nat) -> bool {
    exists|row: int|
        0 <= row < gamma && #[trigger] alone_in_row(es, i, row, delta)
}

/// None of the entries after entry `i` occupies its cell in `row`.
pub open spec fn alone_in_row(es: Seq<Packed>, i: int, row: int, delta: nat) -> bool {
    forall|j: int| i < j < es.len() ==> !(#[trigger] es[j]).hits(es[i].cell(row, delta), delta)
}

/// `order` lists the entries `es` so that they can be peeled.
pub open spec fn peels_as(
    es: Seq<Packed>,
    order: Seq<Packed>,
    gamma: nat,
    delta: nat,
) -> bool {
    order.to_multiset() == es.to_multiset() && in_peel_order(order, gamma, delta)
}

/// The entries can be peeled in some order.
pub open spec fn peelable(es: Seq<Packed>, gamma: nat, delta: nat) -> bool {
    exists|order: Seq<Packed>| #[trigger] peels_as(es, order, gamma, delta)
}

// ---------------------------------------------------------------------------
// Counting
// ---------------------------------------------------------------------------

pub proof fn lemma_hits_append(a: Seq<Packed>, b: Seq<Packed>, ci: int, v: int, delta: nat)
    ensures
        hit_count(a + b, ci, delta) == hit_count(a, ci, delta) + hit_count(b, ci, delta),
        hit_sum(a + b, ci, v, delta) == hit_sum(a, ci, v, delta) + hit_sum(b, ci, v, delta),
    decreases b.len(),
{
    if b.len() == 0 {
        assert(a + b =~= a);
    } else {
        assert((a + b).drop_last() =~= a + b.drop_last());
        lemma_hits_append(a, b.drop_last(), ci, v, delta);
    }
}

/// What entry `i` adds to a cell.
pub proof fn lemma_hits_remove(es: Seq<Packed>, i: int, ci: int, v: int, delta: nat)
    requires
        0 <= i < es.len(),
    ensures
        hit_count(es, ci, delta) == hit_count(es.remove(i), ci, delta) + if es[i].hits(ci, delta) {
            1nat
        } else {
            0nat
        },
        hit_sum(es, ci, v, delta) == hit_sum(es.remove(i), ci, v, delta) + if es[i].hits(
            ci,
            delta,
        ) {
            es[i].part(v) as nat
        } else {
            0nat
        },
    decreases es.len(),
{
    if i == es.len() - 1 {
        assert(es.remove(i) =~= es.drop_last());
    } else {
        assert(es.remove(i).drop_last() =~= es.drop_last().remove(i));
        lemma_hits_remove(es.drop_last(), i, ci, v, delta);
    }
}

pub proof fn lemma_hit_count_bound(es: Seq<Packed>, ci: int, delta: nat)
    ensures
        hit_count(es, ci, delta) <= es.len(),
    decreases es.len(),
{
    if es.len() > 0 {
        lemma_hit_count_bound(es.drop_last(), ci, delta);
    }
}

/// A cell that counts no entry is occupied by none, and sums to zero.
pub proof fn lemma_untouched(es: Seq<Packed>, ci: int, v: int, delta: nat)
    requires
        hit_count(es, ci, delta) == 0,
    ensures
        hit_sum(es, ci, v, delta) == 0,
        forall|j: int| 0 <= j < es.len() ==> !(#[trigger] es[j]).hits(ci, delta),
    decreases es.len(),
{
    if es.len() > 0 {
        lemma_untouched(es.drop_last(), ci, v, delta);
        assert forall|j: int| 0 <= j < es.len() implies !(#[trigger] es[j]).hits(ci, delta) by {
            if j < es.len() - 1 {
                assert(es.drop_last()[j] == es[j]);
            }
        }
    }
}

/// A cell that no entry occupies counts none.
pub proof fn lemma_none_hit(es: Seq<Packed>, ci: int, delta: nat)
    requires
        forall|j: int| 0 <= j < es.len() ==> !(#[trigger] es[j]).hits(ci, delta),
    ensures
        hit_count(es, ci, delta) == 0,
    decreases es.len(),
{
    if es.len() > 0 {
        assert forall|j: int| 0 <= j < es.len() - 1 implies !(#[trigger] es.drop_last()[j]).hits(
            ci,
            delta,
        ) by {
            assert(es.drop_last()[j] == es[j]);
        }
        lemma_none_hit(es.drop_last(), ci, delta);
        assert(es.last() == es[es.len() - 1]);
    }
}

/// The position of the one entry that occupies a pure cell.
pub proof fn lemma_sole_occupant(es: Seq<Packed>, ci: int, delta: nat) -> (i: int)
    requires
        hit_count(es, ci, delta) == 1,
    ensures
        0 <= i < es.len(),
        es[i].hits(ci, delta),
        hit_count(es.remove(i), ci, delta) == 0,
    decreases es.len(),
{
    let i = if es.last().hits(ci, delta) {
        es.len() - 1
    } else {
        lemma_sole_occupant(es.drop_last(), ci, delta)
    };
    lemma_hits_remove(es, i, ci, 0, delta);
    i
}

/// Counts and sums do not depend on the order of the entries.
pub proof fn lemma_hits_permuted(a: Seq<Packed>, b: Seq<Packed>, ci: int, v: int, delta: nat)
    requires
        a.to_multiset() == b.to_multiset(),
    ensures
        hit_count(a, ci, delta) == hit_count(b, ci, delta),
        hit_sum(a, ci, v, delta) == hit_sum(b, ci, v, delta),
    decreases a.len(),
{
    broadcast use vstd::seq_lib::group_to_multiset_ensures;

    assert(a.len() == a.to_multiset().len());
    assert(b.len() == b.to_multiset().len());
    if a.len() > 0 {
        let e = a.last();
        assert(a[a.len() - 1] == e);
        assert(a.contains(e));
        assert(b.to_multiset().count(e) > 0);
        assert(b.contains(e));
        let k = choose|k: int| 0 <= k < b.len() && b[k] == e;
        vstd::seq_lib::to_multiset_remove(a, a.len() - 1);
        vstd::seq_lib::to_multiset_remove(b, k);
        assert(a.remove(a.len() - 1) =~= a.drop_last());
        lemma_hits_permuted(a.drop_last(), b.remove(k), ci, v, delta);
        lemma_hits_remove(b, k, ci, v, delta);
    }
}

// ---------------------------------------------------------------------------
// What a table holds
// ---------------------------------------------------------------------------

/// A new table holds nothing.
pub proof fn law_new_table_is_empty(n: u32, xi: usize)
    ensures
        empty_table(n, xi).holds(Seq::empty()),
        empty_table(n, xi).is_zero(),
{
    lemma_small_mod(0, P as nat);
}

/// Inserting an entry adds it to what the table holds.
pub proof fn law_insert_adds_entry(t: Table, es: Seq<Packed>, e: Packed)
    requires
        t.holds(es),
        e.values.len() == t.xi,
        es.len() < u64::MAX,
    ensures
        t.inserted(e).holds(es.push(e)),
{
    let r = t.inserted(e);
    let d = t.delta as nat;
    let p = P as int;
    let all = es.push(e);
    assert(all.drop_last() =~= es);
    assert forall|ci: int| 0 <= ci < r.cells() implies #[trigger] r.counters[ci] == hit_count(
        all,
        ci,
        d,
    ) by {
        lemma_hit_count_bound(es, ci, d);
        assert(t.counters[ci] == hit_count(es, ci, d));
    }
    assert forall|ci: int| 0 <= ci < r.cells() implies #[trigger] r.keys[ci] == hit_sum(
        all,
        ci,
        -1,
        d,
    ) % (P as nat) by {
        let s = hit_sum(es, ci, -1, d) as int;
        assert(t.keys[ci] == s % p);
        lemma_add_mod_noop(s, e.key as int, p);
        lemma_add_mod_noop(s % p, e.key as int, p);
        lemma_mod_twice(s, p);
    }
    assert forall|vi: int| 0 <= vi < r.values.len() implies #[trigger] r.values[vi] == hit_sum(
        all,
        vi / r.xi as int,
        vi % r.xi as int,
        d,
    ) % (P as nat) by {
        let x = t.xi as int;
        let ci = vi / x;
        let v = vi % x;
        if x == 0 {
            assert(t.cells() * 0 == 0);
        }
        lemma_block(vi, x);
        lemma_block_bound(vi, t.cells() as int, x);
        let s = hit_sum(es, ci, v, d) as int;
        assert(t.values[vi] == s % p);
        lemma_add_mod_noop(s, e.values[v] as int, p);
        lemma_add_mod_noop(s % p, e.values[v] as int, p);
        lemma_mod_twice(s, p);
    }
}

/// What a table holds does not depend on the order of insertion.
pub proof fn law_order_of_entries_is_free(t: Table, a: Seq<Packed>, b: Seq<Packed>)
    requires
        t.holds(a),
        a.to_multiset() == b.to_multiset(),
    ensures
        t.holds(b),
{
    let d = t.delta as nat;
    assert forall|ci: int| 0 <= ci < t.cells() implies #[trigger] t.counters[ci] == hit_count(
        b,
        ci,
        d,
    ) by {
        lemma_hits_permuted(a, b, ci, -1, d);
    }
    assert forall|ci: int| 0 <= ci < t.cells() implies #[trigger] t.keys[ci] == hit_sum(
        b,
        ci,
        -1,
        d,
    ) % (P as nat) by {
        lemma_hits_permuted(a, b, ci, -1, d);
    }
    assert forall|vi: int| 0 <= vi < t.values.len() implies #[trigger] t.values[vi] == hit_sum(
        b,
        vi / t.xi as int,
        vi % t.xi as int,
        d,
    ) % (P as nat) by {
        lemma_hits_permuted(a, b, vi / t.xi as int, vi % t.xi as int, d);
    }
}

/// A table that holds fewer than p entries has canonical components.
pub proof fn lemma_holding_is_canonical(t: Table, es: Seq<Packed>)
    requires
        t.holds(es),
        es.len() < P,
    ensures
        t.is_canonical(),
        all_canonical(t.elements()),
{
    assert forall|i: int| 0 <= i < t.counters.len() implies #[trigger] canonical(t.counters[i]) by {
        lemma_hit_count_bound(es, i, t.delta as nat);
    }
    assert forall|i: int| 0 <= i < t.keys.len() implies #[trigger] canonical(t.keys[i]) by {}
    assert forall|i: int| 0 <= i < t.values.len() implies #[trigger] canonical(t.values[i]) by {}
    let all = t.elements();
    let n = t.counters.len();
    assert forall|i: int| 0 <= i < all.len() implies #[trigger] canonical(all[i]) by {
        if i < n {
            assert(all[i] == t.counters[i]);
            assert(canonical(t.counters[i]));
        } else if i < 2 * n {
            assert(all[i] == t.keys[i - n]);
            assert(canonical(t.keys[i - n]));
        } else {
            assert(all[i] == t.values[i - 2 * n]);
            assert(canonical(t.values[i - 2 * n]));
        }
    }
}

/// Decoding the elements of a canonical table into a table of the same shape
/// gives the table back.
pub proof fn law_elements_round_trip(t: Table, blank: Table)
    requires
        t.shape_ok(),
        all_canonical(t.elements()),
        blank.shape_ok(),
        blank.estimated_elements == t.estimated_elements,
        blank.xi == t.xi,
    ensures
        blank.decoded(t.elements()) == Ok::<Table, IbltError>(t),
{
    let n = t.counters.len() as int;
    let all = t.elements();
    assert(all.len() == 2 * n + t.values.len());
    assert(blank.counters.len() == n);
    assert(blank.values.len() == t.values.len());
    assert(all.subrange(0, n) =~= t.counters);
    assert(all.subrange(n, 2 * n) =~= t.keys);
    assert(all.subrange(2 * n, all.len() as int) =~= t.values);
}

/// Tables add up: the element-wise sum of the elements of two tables of one
/// shape decodes to a table that holds the entries of both.
pub proof fn law_tables_add_up(a: Table, b: Table, blank: Table, ea: Seq<Packed>, eb: Seq<Packed>)
    requires
        a.shape_ok(),
        b.shape_ok(),
        blank.shape_ok(),
        a.estimated_elements == blank.estimated_elements,
        b.estimated_elements == blank.estimated_elements,
        a.xi == blank.xi,
        b.xi == blank.xi,
        a.holds(ea),
        b.holds(eb),
        ea.len() + eb.len() < P,
    ensures
        blank.decoded(vadd(a.elements(), b.elements())) is Ok,
        blank.decoded(vadd(a.elements(), b.elements()))->Ok_0.shape_ok(),
        blank.decoded(vadd(a.elements(), b.elements()))->Ok_0.holds(ea + eb),
{
    let n = a.counters.len() as int;
    let m = a.values.len() as int;
    let p = P as int;
    let d = a.delta as nat;
    let x = a.xi as int;
    let both = ea + eb;
    let sum = vadd(a.elements(), b.elements());
    let t = Table {
        counters: vadd(a.counters, b.counters),
        keys: vadd(a.keys, b.keys),
        values: vadd(a.values, b.values),
        ..a
    };
    assert forall|ci: int| 0 <= ci < t.cells() implies #[trigger] t.counters[ci] == hit_count(
        both,
        ci,
        d,
    ) by {
        lemma_hits_append(ea, eb, ci, -1, d);
        lemma_hit_count_bound(ea, ci, d);
        lemma_hit_count_bound(eb, ci, d);
        assert(a.counters[ci] == hit_count(ea, ci, d));
        assert(b.counters[ci] == hit_count(eb, ci, d));
        lemma_small_mod(hit_count(both, ci, d), P as nat);
    }
    assert forall|ci: int| 0 <= ci < t.cells() implies #[trigger] t.keys[ci] == hit_sum(
        both,
        ci,
        -1,
        d,
    ) % (P as nat) by {
        lemma_hits_append(ea, eb, ci, -1, d);
        assert(a.keys[ci] == hit_sum(ea, ci, -1, d) % (P as nat));
        assert(b.keys[ci] == hit_sum(eb, ci, -1, d) % (P as nat));
        lemma_add_mod_noop(hit_sum(ea, ci, -1, d) as int, hit_sum(eb, ci, -1, d) as int, p);
    }
    assert forall|vi: int| 0 <= vi < t.values.len() implies #[trigger] t.values[vi] == hit_sum(
        both,
        vi / x,
        vi % x,
        d,
    ) % (P as nat) by {
        let ci = vi / x;
        let v = vi % x;
        lemma_hits_append(ea, eb, ci, v, d);
        assert(a.values[vi] == hit_sum(ea, ci, v, d) % (P as nat));
        assert(b.values[vi] == hit_sum(eb, ci, v, d) % (P as nat));
        lemma_add_mod_noop(hit_sum(ea, ci, v, d) as int, hit_sum(eb, ci, v, d) as int, p);
    }
    assert(t.holds(both));
    lemma_holding_is_canonical(t, both);
    assert(t.elements() =~= sum);
    law_elements_round_trip(t, blank);
}

// ---------------------------------------------------------------------------
// Peeling
// ---------------------------------------------------------------------------

/// Taking an entry out of a canonical table that counts it everywhere, and
/// putting it in front of what is left, restores what the table holds.
proof fn lemma_put_back(t: Table, e: Packed, rest: Seq<Packed>)
    requires
        t.laid_out(),
        t.is_canonical(),
        e.values.len() == t.xi,
        !t.misses(e),
        t.removed(e).holds(rest),
    ensures
        t.holds(seq![e] + rest),
{
    let d = t.delta as nat;
    let p = P as int;
    let left = t.removed(e);
    let all = seq![e] + rest;
    let one = seq![e];
    assert(one.drop_last() =~= Seq::empty());
    assert(one.last() == e);
    assert forall|ci: int| 0 <= ci < t.cells() implies #[trigger] t.counters[ci] == hit_count(
        all,
        ci,
        d,
    ) by {
        lemma_hits_append(one, rest, ci, -1, d);
        assert(left.counters[ci] == hit_count(rest, ci, d));
        reveal_with_fuel(hit_count, 2);
        if e.hits(ci, d) {
            lemma_block(ci, d as int);
            lemma_block_bound(ci, t.gamma as int, d as int);
            let row = ci / d as int;
            e.lemma_cell(row, ci, t.gamma as int, d);
            assert(t.counters[e.cell(row, t.delta as nat)] != 0);
        }
    }
    assert forall|ci: int| 0 <= ci < t.cells() implies #[trigger] t.keys[ci] == hit_sum(
        all,
        ci,
        -1,
        d,
    ) % (P as nat) by {
        lemma_hits_append(one, rest, ci, -1, d);
        reveal_with_fuel(hit_sum, 2);
        let r = hit_sum(rest, ci, -1, d) as int;
        assert(left.keys[ci] == r % p);
        assert(canonical(t.keys[ci]));
        if e.hits(ci, d) {
            law_add_sub_cancel(t.keys[ci], e.key);
            lemma_add_mod_noop(r, e.key as int, p);
            lemma_add_mod_noop(r % p, e.key as int, p);
            lemma_mod_twice(r, p);
        }
    }
    assert forall|vi: int| 0 <= vi < t.values.len() implies #[trigger] t.values[vi] == hit_sum(
        all,
        vi / t.xi as int,
        vi % t.xi as int,
        d,
    ) % (P as nat) by {
        let x = t.xi as int;
        let ci = vi / x;
        let v = vi % x;
        if x == 0 {
            assert(t.cells() * 0 == 0);
        }
        lemma_block(vi, x);
        lemma_hits_append(one, rest, ci, v, d);
        reveal_with_fuel(hit_sum, 2);
        let r = hit_sum(rest, ci, v, d) as int;
        assert(left.values[vi] == r % p);
        assert(canonical(t.values[vi]));
        if e.hits(ci, d) {
            law_add_sub_cancel(t.values[vi], e.values[v]);
            lemma_add_mod_noop(r, e.values[v] as int, p);
            lemma_add_mod_noop(r % p, e.values[v] as int, p);
            lemma_mod_twice(r, p);
        }
    }
}

proof fn lemma_removed_is_canonical(t: Table, e: Packed)
    requires
        t.is_canonical(),
    ensures
        t.removed(e).is_canonical(),
{
    let left = t.removed(e);
    assert forall|i: int| 0 <= i < left.counters.len() implies #[trigger] canonical(
        left.counters[i],
    ) by {
        assert(canonical(t.counters[i]));
    }
    assert forall|i: int| 0 <= i < left.keys.len() implies #[trigger] canonical(left.keys[i]) by {
        assert(canonical(t.keys[i]));
        law_add_sub_cancel(t.keys[i], e.key);
    }
    assert forall|i: int| 0 <= i < left.values.len() implies #[trigger] canonical(
        left.values[i],
    ) by {
        assert(canonical(t.values[i]));
        law_add_sub_cancel(t.values[i], e.values[i % t.xi as int]);
    }
}

/// What peeling appends to `out` is what the table holds.
proof fn lemma_peel_is_sound(t: Table, queue: Seq<int>, out: Seq<Packed>)
    requires
        t.laid_out(),
        t.is_canonical(),
        t.peel(queue, out) is Ok,
    ensures
        t.peel(queue, out)->Ok_0.len() >= out.len(),
        t.peel(queue, out)->Ok_0.take(out.len() as int) == out,
        t.holds(t.peel(queue, out)->Ok_0.skip(out.len() as int)),
        all_fit(t.peel(queue, out)->Ok_0.skip(out.len() as int), t.xi as nat),
    decreases total(t.counters), queue.len(),
{
    let res = t.peel(queue, out)->Ok_0;
    if queue.len() == 0 {
        assert(res == out);
        assert(res.take(out.len() as int) =~= out);
        assert(res.skip(out.len() as int) =~= Seq::empty());
        lemma_small_mod(0, P as nat);
    } else {
        let ci = queue[0];
        let rest = queue.drop_first();
        let e = t.entry_at(ci);
        if !(0 <= ci < t.counters.len()) || t.counters[ci] != 1 || !e.hits(ci, t.delta as nat) {
            lemma_peel_is_sound(t, rest, out);
        } else {
            let left = t.removed(e);
            lemma_total_drops(left.counters, t.counters, ci);
            lemma_removed_is_canonical(t, e);
            lemma_peel_is_sound(
                left,
                rest + left.pure_cells_of(e, t.gamma as int),
                out.push(e),
            );
            let n = out.len() as int;
            let tail = res.skip(n + 1);
            assert(res.take(n + 1)[n] == e);
            assert(res.take(n) =~= out) by {
                assert(res.take(n + 1).take(n) =~= res.take(n));
                assert(out.push(e).take(n) =~= out);
            }
            assert(res.skip(n) =~= seq![e] + tail);
            lemma_put_back(t, e, tail);
            assert(e.fits(t.xi as nat)) by {
                assert forall|v: int| 0 <= v < t.xi implies #[trigger] e.values[v] < PACK_LIMIT by {
                    assert(!t.has_wide_value(ci));
                    assert(t.entry_at(ci).values[v] < PACK_LIMIT);
                }
            }
            assert forall|i: int| 0 <= i < (seq![e] + tail).len() implies (#[trigger] (seq![e]
                + tail)[i]).fits(t.xi as nat) by {
                if i > 0 {
                    assert((seq![e] + tail)[i] == tail[i - 1]);
                    assert(tail[i - 1].fits(left.xi as nat));
                }
            }
        }
    }
}

/// Recovery is sound: whatever the table and whoever built it, the entries
/// recovered are exactly what the table holds.
pub proof fn law_recovery_is_sound(t: Table)
    requires
        t.recovered() is Ok,
    ensures
        t.holds(t.recovered()->Ok_0),
        all_fit(t.recovered()->Ok_0, t.xi as nat),
{
    lemma_peel_is_sound(t, t.pure_cells(t.cells() as int), Seq::empty());
    let res = t.recovered()->Ok_0;
    assert(res.skip(0) =~= res);
}

/// Every pure cell of the table is in the queue.
spec fn covers(t: Table, queue: Seq<int>) -> bool {
    forall|ci: int|
        0 <= ci < t.counters.len() && #[trigger] t.counters[ci] == 1 ==> queue.contains(ci)
}

proof fn lemma_pure_cells_complete(t: Table, n: int, ci: int)
    requires
        0 <= ci < n <= t.counters.len(),
        t.counters[ci] == 1,
    ensures
        t.pure_cells(n).contains(ci),
    decreases n,
{
    if ci == n - 1 {
        let s = t.pure_cells(n);
        assert(s[s.len() - 1] == ci);
    } else {
        lemma_pure_cells_complete(t, n - 1, ci);
        let s = t.pure_cells(n - 1);
        let k = choose|k: int| 0 <= k < s.len() && s[k] == ci;
        assert(t.pure_cells(n)[k] == ci);
    }
}

proof fn lemma_pure_cells_of_complete(t: Table, e: Packed, rows: int, row: int)
    requires
        0 <= row < rows,
        t.counters[e.cell(row, t.delta as nat)] == 1,
    ensures
        t.pure_cells_of(e, rows).contains(e.cell(row, t.delta as nat)),
    decreases rows,
{
    let s = t.pure_cells_of(e, rows);
    let ci = e.cell(row, t.delta as nat);
    if row == rows - 1 {
        assert(s[s.len() - 1] == ci);
    } else {
        lemma_pure_cells_of_complete(t, e, rows - 1, row);
        let q = t.pure_cells_of(e, rows - 1);
        let k = choose|k: int| 0 <= k < q.len() && q[k] == ci;
        assert(s[k] == ci);
    }
}

/// The cell that entry `i` occupies in a row counts it.
proof fn lemma_counted(es: Seq<Packed>, i: int, ci: int, delta: nat)
    requires
        0 <= i < es.len(),
        es[i].hits(ci, delta),
    ensures
        hit_count(es, ci, delta) >= 1,
{
    lemma_hits_remove(es, i, ci, -1, delta);
}

/// A pure cell of a table that holds `es` shows one of `es`, which can be taken
/// out.
proof fn lemma_pure_cell(t: Table, es: Seq<Packed>, ci: int) -> (i: int)
    requires
        t.holds(es),
        all_fit(es, t.xi as nat),
        0 <= ci < t.cells(),
        t.counters[ci] == 1,
    ensures
        0 <= i < es.len(),
        t.entry_at(ci) == es[i],
        es[i].hits(ci, t.delta as nat),
        hit_count(es.remove(i), ci, t.delta as nat) == 0,
        !t.has_wide_value(ci),
        !t.misses(es[i]),
        t.removed(es[i]).holds(es.remove(i)),
{
    let d = t.delta as nat;
    let p = P as int;
    let x = t.xi as int;
    assert(t.counters[ci] == hit_count(es, ci, d));
    let i = lemma_sole_occupant(es, ci, d);
    let e = es[i];
    let rest = es.remove(i);
    let left = t.removed(e);
    assert(e.fits(t.xi as nat));
    let shown = t.entry_at(ci);
    assert(shown.key == e.key) by {
        lemma_hits_remove(es, i, ci, -1, d);
        lemma_untouched(rest, ci, -1, d);
        lemma_small_mod(e.key as nat, P as nat);
        assert(t.keys[ci] == hit_sum(es, ci, -1, d) % (P as nat));
    }
    assert forall|v: int| 0 <= v < x implies shown.values[v] == e.values[v] by {
        let vi = ci * x + v;
        lemma_cell_index(ci, v, x);
        crate::auction::iblt::lemma_block_fits(ci, v, t.cells() as int, x);
        lemma_hits_remove(es, i, ci, v, d);
        lemma_untouched(rest, ci, v, d);
        assert(e.values[v] < PACK_LIMIT);
        lemma_small_mod(e.values[v] as nat, P as nat);
        assert(t.values[vi] == hit_sum(es, vi / x, vi % x, d) % (P as nat));
    }
    assert(shown =~= e);
    assert(!t.has_wide_value(ci)) by {
        assert forall|v: int| 0 <= v < t.xi implies #[trigger] t.entry_at(ci).values[v]
            < PACK_LIMIT by {
            assert(e.values[v] < PACK_LIMIT);
        }
    }
    assert(!t.misses(e)) by {
        assert forall|row: int| 0 <= row < t.gamma implies t.counters[#[trigger] e.cell(
            row,
            t.delta as nat,
        )] != 0 by {
            e.lemma_own_cell(row, t.gamma as int, d);
            lemma_counted(es, i, e.cell(row, d), d);
            assert(t.counters[e.cell(row, d)] == hit_count(es, e.cell(row, d), d));
        }
    }
    assert forall|cj: int| 0 <= cj < left.cells() implies #[trigger] left.counters[cj] == hit_count(
        rest,
        cj,
        d,
    ) by {
        lemma_hits_remove(es, i, cj, -1, d);
        assert(t.counters[cj] == hit_count(es, cj, d));
    }
    assert forall|cj: int| 0 <= cj < left.cells() implies #[trigger] left.keys[cj] == hit_sum(
        rest,
        cj,
        -1,
        d,
    ) % (P as nat) by {
        lemma_hits_remove(es, i, cj, -1, d);
        let r = hit_sum(rest, cj, -1, d) as int;
        let s = hit_sum(es, cj, -1, d) as int;
        assert(t.keys[cj] == s % p);
        if e.hits(cj, d) {
            vstd::arithmetic::div_mod::lemma_sub_mod_noop(s, e.key as int, p);
            vstd::arithmetic::div_mod::lemma_sub_mod_noop(s % p, e.key as int, p);
            lemma_mod_twice(s, p);
        }
    }
    assert forall|vi: int| 0 <= vi < left.values.len() implies #[trigger] left.values[vi]
        == hit_sum(rest, vi / left.xi as int, vi % left.xi as int, d) % (P as nat) by {
        if x == 0 {
            assert(t.cells() * 0 == 0);
        }
        lemma_block(vi, x);
        let cj = vi / x;
        let v = vi % x;
        lemma_hits_remove(es, i, cj, v, d);
        let s = hit_sum(es, cj, v, d) as int;
        assert(t.values[vi] == s % p);
        if e.hits(cj, d) {
            vstd::arithmetic::div_mod::lemma_sub_mod_noop(s, e.values[v] as int, p);
            vstd::arithmetic::div_mod::lemma_sub_mod_noop(s % p, e.values[v] as int, p);
            lemma_mod_twice(s, p);
        }
    }
    i
}

/// Leaving an entry out keeps a peel order.
proof fn lemma_peel_order_remove(es: Seq<Packed>, i: int, gamma: nat, delta: nat)
    requires
        in_peel_order(es, gamma, delta),
        0 <= i < es.len(),
    ensures
        in_peel_order(es.remove(i), gamma, delta),
{
    let rest = es.remove(i);
    assert forall|k: int| 0 <= k < rest.len() implies #[trigger] sticks_out(
        rest,
        k,
        gamma,
        delta,
    ) by {
        let m = if k < i {
            k
        } else {
            k + 1
        };
        assert(rest[k] == es[m]);
        assert(sticks_out(es, m, gamma, delta));
        let row = choose|row: int| 0 <= row < gamma && #[trigger] alone_in_row(es, m, row, delta);
        assert(alone_in_row(rest, k, row, delta)) by {
            assert forall|j: int| k < j < rest.len() implies !(#[trigger] rest[j]).hits(
                rest[k].cell(row, delta),
                delta,
            ) by {
                let mj = if j < i {
                    j
                } else {
                    j + 1
                };
                assert(rest[j] == es[mj]);
            }
        }
    }
}

/// Putting an entry that has a cell to itself in front extends a peel order.
proof fn lemma_peel_order_front(e: Packed, rest: Seq<Packed>, row: int, gamma: nat, delta: nat)
    requires
        in_peel_order(rest, gamma, delta),
        0 <= row < gamma,
        hit_count(rest, e.cell(row, delta), delta) == 0,
    ensures
        in_peel_order(seq![e] + rest, gamma, delta),
{
    let all = seq![e] + rest;
    lemma_untouched(rest, e.cell(row, delta), -1, delta);
    assert forall|k: int| 0 <= k < all.len() implies #[trigger] sticks_out(
        all,
        k,
        gamma,
        delta,
    ) by {
        if k == 0 {
            assert(alone_in_row(all, 0, row, delta)) by {
                assert forall|j: int| 0 < j < all.len() implies !(#[trigger] all[j]).hits(
                    all[0].cell(row, delta),
                    delta,
                ) by {
                    assert(all[j] == rest[j - 1]);
                }
            }
        } else {
            assert(sticks_out(rest, k - 1, gamma, delta));
            let r = choose|r: int|
                0 <= r < gamma && #[trigger] alone_in_row(rest, k - 1, r, delta);
            assert(alone_in_row(all, k, r, delta)) by {
                assert forall|j: int| k < j < all.len() implies !(#[trigger] all[j]).hits(
                    all[k].cell(r, delta),
                    delta,
                ) by {
                    assert(all[j] == rest[j - 1]);
                    assert(all[k] == rest[k - 1]);
                }
            }
        }
    }
}

/// What peeling does to a table that holds `es`: it appends `es` to `out` in a
/// peel order, or stalls, and does not stall if `es` is in a peel order and
/// every pure cell is queued.
proof fn lemma_peel_of_held(t: Table, queue: Seq<int>, out: Seq<Packed>, es: Seq<Packed>)
    requires
        t.holds(es),
        t.gamma >= 1,
        all_fit(es, t.xi as nat),
    ensures
        match t.peel(queue, out) {
            Ok(res) => {
                &&& res.len() >= out.len()
                &&& res.take(out.len() as int) == out
                &&& res.skip(out.len() as int).to_multiset() == es.to_multiset()
                &&& in_peel_order(res.skip(out.len() as int), t.gamma as nat, t.delta as nat)
            },
            Err(e) => {
                &&& e is PeelStalled
                &&& !(in_peel_order(es, t.gamma as nat, t.delta as nat) && covers(t, queue))
            },
        },
    decreases total(t.counters), queue.len(),
{
    broadcast use vstd::seq_lib::group_to_multiset_ensures;

    let d = t.delta as nat;
    let n = out.len() as int;
    if queue.len() == 0 {
        if es.len() > 0 {
            es[0].lemma_own_cell(0, t.gamma as int, d);
            lemma_counted(es, 0, es[0].cell(0, d), d);
            assert(t.counters[es[0].cell(0, d)] != 0);
            if in_peel_order(es, t.gamma as nat, d) {
                assert(sticks_out(es, 0, t.gamma as nat, d));
                let row = choose|row: int| 0 <= row < t.gamma && #[trigger] alone_in_row(
                    es,
                    0,
                    row,
                    d,
                );
                let ci = es[0].cell(row, d);
                es[0].lemma_own_cell(row, t.gamma as int, d);
                let rest = es.remove(0);
                assert forall|j: int| 0 <= j < rest.len() implies !(#[trigger] rest[j]).hits(
                    ci,
                    d,
                ) by {
                    assert(rest[j] == es[j + 1]);
                }
                lemma_none_hit(rest, ci, d);
                lemma_hits_remove(es, 0, ci, -1, d);
                assert(t.counters[ci] == 1);
                assert(!queue.contains(ci));
            }
        } else {
            assert(es =~= Seq::empty());
            assert(out.take(n) =~= out);
            assert(out.skip(n) =~= es);
            lemma_small_mod(0, P as nat);
            assert(t.is_zero());
        }
    } else {
        let ci = queue[0];
        let rest = queue.drop_first();
        if !(0 <= ci < t.counters.len()) || t.counters[ci] != 1 {
            lemma_peel_of_held(t, rest, out, es);
            assert(covers(t, queue) ==> covers(t, rest)) by {
                if covers(t, queue) {
                    assert forall|cj: int|
                        0 <= cj < t.counters.len() && #[trigger] t.counters[cj]
                            == 1 implies rest.contains(cj) by {
                        let k = choose|k: int| 0 <= k < queue.len() && queue[k] == cj;
                        assert(rest[k - 1] == cj);
                    }
                }
            }
        } else {
            let i = lemma_pure_cell(t, es, ci);
            let e = es[i];
            let left = t.removed(e);
            let es2 = es.remove(i);
            let queue2 = rest + left.pure_cells_of(e, t.gamma as int);
            lemma_total_drops(left.counters, t.counters, ci);
            assert(e.fits(t.xi as nat));
            assert forall|k: int| 0 <= k < es2.len() implies (#[trigger] es2[k]).fits(
                left.xi as nat,
            ) by {
                assert(es2[k] == es[if k < i {
                    k
                } else {
                    k + 1
                }]);
            }
            lemma_peel_of_held(left, queue2, out.push(e), es2);
            lemma_block(ci, d as int);
            lemma_block_bound(ci, t.gamma as int, d as int);
            let row = ci / d as int;
            e.lemma_cell(row, ci, t.gamma as int, d);
            match left.peel(queue2, out.push(e)) {
                Ok(res) => {
                    let tail = res.skip(n + 1);
                    assert(res.take(n + 1)[n] == e);
                    assert(res.take(n) =~= out) by {
                        assert(res.take(n + 1).take(n) =~= res.take(n));
                        assert(out.push(e).take(n) =~= out);
                    }
                    assert(res.skip(n) =~= seq![e] + tail);
                    assert((seq![e] + tail).remove(0) =~= tail);
                    assert((seq![e] + tail)[0] == e);
                    vstd::seq_lib::to_multiset_remove(seq![e] + tail, 0);
                    vstd::seq_lib::to_multiset_remove(es, i);
                    assert((seq![e] + tail).contains(e));
                    assert(es.contains(e));
                    assert((seq![e] + tail).to_multiset().count(e) > 0);
                    assert(es.to_multiset().count(e) > 0);
                    assert((seq![e] + tail).to_multiset() =~= tail.to_multiset().insert(e));
                    assert(es.to_multiset() =~= es2.to_multiset().insert(e));
                    lemma_hits_permuted(tail, es2, ci, -1, d);
                    lemma_peel_order_front(e, tail, row, t.gamma as nat, d);
                },
                Err(_) => {
                    if in_peel_order(es, t.gamma as nat, d) && covers(t, queue) {
                        lemma_peel_order_remove(es, i, t.gamma as nat, d);
                        assert(covers(left, queue2)) by {
                            let new = left.pure_cells_of(e, t.gamma as int);
                            assert forall|cj: int|
                                0 <= cj < left.counters.len() && #[trigger] left.counters[cj]
                                    == 1 implies queue2.contains(cj) by {
                                if e.hits(cj, d) {
                                    lemma_block(cj, d as int);
                                    lemma_block_bound(cj, t.gamma as int, d as int);
                                    let r = cj / d as int;
                                    e.lemma_cell(r, cj, t.gamma as int, d);
                                    lemma_pure_cells_of_complete(left, e, t.gamma as int, r);
                                    let k = choose|k: int| 0 <= k < new.len() && new[k] == cj;
                                    assert(queue2[rest.len() + k] == cj);
                                } else {
                                    assert(t.counters[cj] == 1);
                                    let k = choose|k: int|
                                        0 <= k < queue.len() && queue[k] == cj;
                                    assert(rest[k - 1] == cj);
                                    assert(queue2[k - 1] == cj);
                                }
                            }
                        }
                    }
                },
            }
        }
    }
}

/// Entries that are in a peel order can be peeled; one entry, or none, always
/// can.
pub proof fn law_few_entries_are_peelable(es: Seq<Packed>, gamma: nat, delta: nat)
    ensures
        in_peel_order(es, gamma, delta) ==> peelable(es, gamma, delta),
        es.len() <= 1 && gamma >= 1 ==> peelable(es, gamma, delta),
{
    if es.len() <= 1 && gamma >= 1 {
        assert forall|i: int| 0 <= i < es.len() implies #[trigger] sticks_out(
            es,
            i,
            gamma,
            delta,
        ) by {
            assert(alone_in_row(es, i, 0, delta));
        }
    }
    if in_peel_order(es, gamma, delta) {
        assert(peels_as(es, es, gamma, delta));
    }
}

/// Recovery succeeds exactly when the entries can be peeled, and gives them back
/// in an order in which they can.
pub proof fn law_recovery_succeeds_iff_peelable(t: Table, es: Seq<Packed>)
    requires
        t.shape_ok(),
        t.holds(es),
        es.len() < P,
        all_fit(es, t.xi as nat),
    ensures
        t.recovered() is Ok <==> peelable(es, t.gamma as nat, t.delta as nat),
        t.recovered() is Ok ==> peels_as(
            es,
            t.recovered()->Ok_0,
            t.gamma as nat,
            t.delta as nat,
        ),
{
    broadcast use vstd::seq_lib::group_to_multiset_ensures;

    let g = t.gamma as nat;
    let d = t.delta as nat;
    let queue = t.pure_cells(t.cells() as int);
    lemma_holding_is_canonical(t, es);
    assert(covers(t, queue)) by {
        assert forall|ci: int|
            0 <= ci < t.counters.len() && #[trigger] t.counters[ci] == 1 implies queue.contains(
            ci,
        ) by {
            lemma_pure_cells_complete(t, t.cells() as int, ci);
        }
    }
    lemma_peel_of_held(t, queue, Seq::empty(), es);
    if t.recovered() is Ok {
        let res = t.recovered()->Ok_0;
        assert(res.skip(0) =~= res);
        assert(peels_as(es, res, g, d));
    }
    if peelable(es, g, d) {
        let order = choose|order: Seq<Packed>| #[trigger] peels_as(es, order, g, d);
        law_order_of_entries_is_free(t, es, order);
        assert forall|i: int| 0 <= i < order.len() implies (#[trigger] order[i]).fits(
            t.xi as nat,
        ) by {
            assert(order.contains(order[i]));
            assert(order.to_multiset().count(order[i]) > 0);
            assert(es.contains(order[i]));
            let j = choose|j: int| 0 <= j < es.len() && es[j] == order[i];
            assert(es[j].fits(t.xi as nat));
        }
        lemma_peel_of_held(t, queue, Seq::empty(), order);
    }
}

/// Recovery from a table that holds `es` gives `es` back, in some order, if they
/// can be peeled, and reports a stall if they cannot. No other error can come.
pub proof fn law_recovery_of_held(t: Table, es: Seq<Packed>)
    requires
        t.shape_ok(),
        t.holds(es),
        es.len() < P,
        all_fit(es, t.xi as nat),
    ensures
        match t.recovered() {
            Ok(res) => {
                &&& peelable(es, t.gamma as nat, t.delta as nat)
                &&& res.to_multiset() == es.to_multiset()
            },
            Err(e) => {
                &&& !peelable(es, t.gamma as nat, t.delta as nat)
                &&& e is PeelStalled
            },
        },
{
    law_recovery_succeeds_iff_peelable(t, es);
    lemma_holding_is_canonical(t, es);
    lemma_peel_of_held(t, t.pure_cells(t.cells() as int), Seq::empty(), es);
}

// ---------------------------------------------------------------------------
// What was recovered
// ---------------------------------------------------------------------------

/// No two entries have one key.
pub open spec fn keys_distinct(es: Seq<Packed>) -> bool {
    forall|i: int, j: int| 0 <= i < j < es.len() ==> (#[trigger] es[i]).key != (#[trigger] es[j]).key
}

/// The entry has a key and `xi` values of seven bytes each.
pub open spec fn whole_entry(e: Entry, xi: nat) -> bool {
    &&& e.key.len() == KEY_BYTES
    &&& e.values.len() == xi
    &&& forall|v: int| 0 <= v < xi ==> (#[trigger] e.values[v]).len() == PACK_BYTES
}

/// The counters of row `row` added up.
pub open spec fn row_count(t: Table, row: int) -> int {
    sum(|c: int| t.counters[row * t.delta + c] as int, t.delta as int)
}

/// The table after entries have been inserted one after the other.
pub open spec fn inserted_all(t: Table, es: Seq<Packed>) -> Table
    decreases es.len(),
{
    if es.len() == 0 {
        t
    } else {
        inserted_all(t, es.drop_last()).inserted(es.last())
    }
}

/// Entries that can be peeled in their order have distinct keys: equal keys
/// share every cell.
pub proof fn law_peel_order_has_distinct_keys(es: Seq<Packed>, gamma: nat, delta: nat)
    requires
        delta > 0,
        in_peel_order(es, gamma, delta),
    ensures
        keys_distinct(es),
{
    assert forall|i: int, j: int| 0 <= i < j < es.len() implies (#[trigger] es[i]).key != (
    #[trigger] es[j]).key by {
        assert(sticks_out(es, i, gamma, delta));
        let row = choose|row: int| 0 <= row < gamma && #[trigger] alone_in_row(es, i, row, delta);
        es[j].lemma_own_cell(row, gamma as int, delta);
        assert(!es[j].hits(es[i].cell(row, delta), delta));
    }
}

/// Entries with distinct keys of seven bytes are no more than there are such
/// keys.
proof fn lemma_distinct_keys_bound(es: Seq<Packed>, xi: nat)
    requires
        keys_distinct(es),
        all_fit(es, xi),
    ensures
        es.len() <= PACK_LIMIT,
{
    let keys = es.map_values(|e: Packed| e.key as int);
    assert(keys.no_duplicates()) by {
        assert forall|i: int, j: int| 0 <= i < keys.len() && 0 <= j < keys.len() && i
            != j implies keys[i] != keys[j] by {
            if i < j {
                assert(es[i].key != es[j].key);
            } else {
                assert(es[j].key != es[i].key);
            }
        }
    }
    keys.unique_seq_to_set();
    let all = vstd::set_lib::set_int_range(0, PACK_LIMIT as int);
    vstd::set_lib::lemma_int_range(0, PACK_LIMIT as int);
    assert(keys.to_set().subset_of(all)) by {
        assert forall|k: int| keys.to_set().contains(k) implies all.contains(k) by {
            let i = choose|i: int| 0 <= i < keys.len() && keys[i] == k;
            assert(es[i].fits(xi));
        }
    }
    vstd::set_lib::lemma_len_subset(keys.to_set(), all);
}

/// Of the cells of a row, an entry occupies one.
proof fn lemma_one_of_row(e: Packed, row: int, gamma: int, delta: nat, n: int)
    requires
        0 <= row < gamma,
        0 <= n <= delta,
        delta > 0,
    ensures
        sum(
            |c: int|
                if e.hits(row * delta + c, delta) {
                    1int
                } else {
                    0int
                },
            n,
        ) == if e.cell(row, delta) < row * delta + n {
            1int
        } else {
            0int
        },
    decreases n,
{
    e.lemma_own_cell(row, gamma, delta);
    e.lemma_cell(row, row * delta, gamma, delta);
    if n > 0 {
        lemma_one_of_row(e, row, gamma, delta, n - 1);
        e.lemma_cell(row, row * delta + n - 1, gamma, delta);
    }
}

proof fn lemma_row_hits(es: Seq<Packed>, row: int, gamma: int, delta: nat)
    requires
        0 <= row < gamma,
        delta > 0,
    ensures
        sum(|c: int| hit_count(es, row * delta + c, delta) as int, delta as int) == es.len(),
    decreases es.len(),
{
    let d = delta as int;
    let f = |c: int| hit_count(es, row * delta + c, delta) as int;
    if es.len() == 0 {
        lemma_sum_same(f, |c: int| 0, d);
        lemma_sum_zero(d);
    } else {
        let init = es.drop_last();
        let e = es.last();
        let g = |c: int| hit_count(init, row * delta + c, delta) as int;
        let h = |c: int|
            if e.hits(row * delta + c, delta) {
                1int
            } else {
                0int
            };
        lemma_row_hits(init, row, gamma, delta);
        lemma_one_of_row(e, row, gamma, delta, d);
        e.lemma_cell(row, row * delta, gamma, delta);
        lemma_sum_adds(g, h, d);
        lemma_sum_same(f, |c: int| g(c) + h(c), d);
    }
}

/// Every row of a table counts the entries that the table holds.
pub proof fn law_rows_count_entries(t: Table, es: Seq<Packed>, row: int)
    requires
        t.holds(es),
        0 <= row < t.gamma,
    ensures
        row_count(t, row) == es.len(),
{
    let d = t.delta as nat;
    lemma_row_hits(es, row, t.gamma as int, d);
    let f = |c: int| t.counters[row * t.delta + c] as int;
    let g = |c: int| hit_count(es, row * d + c, d) as int;
    assert forall|c: int| 0 <= c < d implies #[trigger] f(c) == g(c) by {
        crate::auction::iblt::lemma_block_fits(row, c, t.gamma as int, d as int);
        assert(t.counters[row * t.delta + c] == hit_count(es, row * d + c, d));
    }
    lemma_sum_same(f, g, d as int);
}

/// What a table holds determines it, its sizes given.
pub proof fn law_entries_determine_table(a: Table, b: Table, es: Seq<Packed>)
    requires
        a.holds(es),
        b.holds(es),
        a.estimated_elements == b.estimated_elements,
        a.gamma == b.gamma,
        a.delta == b.delta,
        a.xi == b.xi,
    ensures
        a == b,
{
    assert forall|ci: int| 0 <= ci < a.cells() implies a.counters[ci] == b.counters[ci]
        && a.keys[ci] == b.keys[ci] by {
        assert(a.counters[ci] == hit_count(es, ci, a.delta as nat));
        assert(b.counters[ci] == hit_count(es, ci, a.delta as nat));
        assert(a.keys[ci] == hit_sum(es, ci, -1, a.delta as nat) % (P as nat));
        assert(b.keys[ci] == hit_sum(es, ci, -1, a.delta as nat) % (P as nat));
    }
    assert forall|vi: int| 0 <= vi < a.values.len() implies a.values[vi] == b.values[vi] by {
        let x = a.xi as int;
        assert(a.values[vi] == hit_sum(es, vi / x, vi % x, a.delta as nat) % (P as nat));
        assert(b.values[vi] == hit_sum(es, vi / x, vi % x, a.delta as nat) % (P as nat));
    }
    assert(a.counters =~= b.counters);
    assert(a.keys =~= b.keys);
    assert(a.values =~= b.values);
    assert(a =~= b);
}

/// Inserting entries into an empty table makes it hold them.
pub proof fn law_insertions_add_up(t: Table, es: Seq<Packed>)
    requires
        t.holds(Seq::empty()),
        all_fit(es, t.xi as nat),
        es.len() <= u64::MAX,
    ensures
        inserted_all(t, es).holds(es),
        inserted_all(t, es).estimated_elements == t.estimated_elements,
        inserted_all(t, es).gamma == t.gamma,
        inserted_all(t, es).delta == t.delta,
        inserted_all(t, es).xi == t.xi,
    decreases es.len(),
{
    if es.len() == 0 {
        assert(es =~= Seq::empty());
    } else {
        let init = es.drop_last();
        assert forall|i: int| 0 <= i < init.len() implies (#[trigger] init[i]).fits(
            t.xi as nat,
        ) by {
            assert(init[i] == es[i]);
        }
        law_insertions_add_up(t, init);
        assert(es[es.len() - 1].fits(t.xi as nat));
        law_insert_adds_entry(inserted_all(t, init), init, es.last());
        assert(init.push(es.last()) =~= es);
    }
}

/// Nothing is left over and nothing is invented: inserting the recovered entries
/// into a new table of the same sizes rebuilds the table. Their keys are
/// distinct, each entry has a value of seven bytes for every value of a cell, and
/// every row counts as many entries as were recovered.
pub proof fn law_recovery_is_exact(t: Table)
    requires
        t.recovered() is Ok,
    ensures
        ({
            let es = t.recovered()->Ok_0;
            &&& inserted_all(empty_table(t.estimated_elements, t.xi), es) == t
            &&& keys_distinct(es)
            &&& forall|row: int| 0 <= row < t.gamma ==> #[trigger] row_count(t, row) == es.len()
            &&& forall|i: int|
                0 <= i < es.len() ==> whole_entry(#[trigger] unpack_all(es)[i], t.xi as nat)
        }),
{
    let es = t.recovered()->Ok_0;
    let blank = empty_table(t.estimated_elements, t.xi);
    law_recovery_is_sound(t);
    lemma_peel_of_held(t, t.pure_cells(t.cells() as int), Seq::empty(), es);
    assert(es.skip(0) =~= es);
    law_peel_order_has_distinct_keys(es, t.gamma as nat, t.delta as nat);
    lemma_distinct_keys_bound(es, t.xi as nat);
    law_new_table_is_empty(t.estimated_elements, t.xi);
    law_insertions_add_up(blank, es);
    law_entries_determine_table(inserted_all(blank, es), t, es);
    assert forall|row: int| 0 <= row < t.gamma implies #[trigger] row_count(t, row)
        == es.len() by {
        law_rows_count_entries(t, es, row);
    }
    assert forall|i: int| 0 <= i < es.len() implies whole_entry(
        #[trigger] unpack_all(es)[i],
        t.xi as nat,
    ) by {
        let e = unpack_all(es)[i];
        assert(es[i].fits(t.xi as nat));
        lemma_le_seq_len(es[i].key as nat, KEY_BYTES as nat);
        assert forall|v: int| 0 <= v < t.xi implies (#[trigger] e.values[v]).len()
            == PACK_BYTES by {
            lemma_le_seq_len(es[i].values[v] as nat, PACK_BYTES as nat);
        }
    }
}

// ---------------------------------------------------------------------------
// The order of recovery
// ---------------------------------------------------------------------------

/// Cell `ci` counts one entry.
pub open spec fn is_pure(t: Table, ci: int) -> bool {
    0 <= ci < t.counters.len() && t.counters[ci] == 1
}

/// A pure cell before `ci` shows `e`.
pub open spec fn shown_before(t: Table, e: Packed, ci: int) -> bool {
    exists|cj: int| cj < ci && #[trigger] is_pure(t, cj) && t.entry_at(cj) == e
}

/// What `res` has before position `k` is shown by pure cells before `ci`.
pub open spec fn from_earlier_cells(t: Table, res: Seq<Packed>, k: int, ci: int) -> bool {
    forall|l: int| 0 <= l < k ==> shown_before(t, #[trigger] res[l], ci)
}

/// The entry of pure cell `ci` is in `res`, behind none but entries of earlier
/// pure cells.
pub open spec fn in_its_place(t: Table, res: Seq<Packed>, ci: int) -> bool {
    exists|k: int|
        0 <= k < res.len() && #[trigger] res[k] == t.entry_at(ci) && from_earlier_cells(
            t,
            res,
            k,
            ci,
        )
}

proof fn lemma_pure_cells_ascend(t: Table, n: int)
    requires
        0 <= n <= t.counters.len(),
    ensures
        forall|a: int|
            0 <= a < t.pure_cells(n).len() ==> is_pure(t, #[trigger] t.pure_cells(n)[a])
                && t.pure_cells(n)[a] < n,
        forall|a: int, b: int|
            0 <= a < b < t.pure_cells(n).len() ==> #[trigger] t.pure_cells(n)[a]
                < #[trigger] t.pure_cells(n)[b],
    decreases n,
{
    if n > 0 {
        lemma_pure_cells_ascend(t, n - 1);
        let s = t.pure_cells(n);
        let init = t.pure_cells(n - 1);
        if t.counters[n - 1] == 1 {
            assert(s == init.push(n - 1));
            assert forall|a: int| 0 <= a < s.len() implies is_pure(t, #[trigger] s[a]) && s[a]
                < n by {
                if a < init.len() {
                    assert(s[a] == init[a]);
                }
            }
            assert forall|a: int, b: int| 0 <= a < b < s.len() implies #[trigger] s[a]
                < #[trigger] s[b] by {
                assert(s[a] == init[a]);
                if b < init.len() {
                    assert(s[b] == init[b]);
                }
            }
        } else {
            assert(s == init);
        }
    }
}

/// The pure cells of `t0` still show their entries in `t`, unless these are in
/// `out` already.
spec fn still_shown(t0: Table, t: Table, out: Seq<Packed>) -> bool {
    forall|ci: int| #[trigger]
        is_pure(t0, ci) ==> (t.counters[ci] == 1 && t.entry_at(ci) == t0.entry_at(ci)) || (
        t.counters[ci] == 0 && out.contains(t0.entry_at(ci)))
}

/// The first `m` pure cells of `t0` have had their turn: what came out is shown
/// by them, and the entry of each is in its place.
spec fn had_their_turn(t0: Table, q: Seq<int>, m: int, out: Seq<Packed>) -> bool {
    &&& forall|l: int|
        0 <= l < out.len() ==> shown_before(
            t0,
            #[trigger] out[l],
            if m < q.len() {
                q[m]
            } else {
                t0.counters.len() as int
            },
        )
    &&& forall|a: int| 0 <= a < m ==> in_its_place(t0, out, #[trigger] q[a])
}

proof fn lemma_first_wave(
    t0: Table,
    t: Table,
    q: Seq<int>,
    m: int,
    extra: Seq<int>,
    out: Seq<Packed>,
    es: Seq<Packed>,
)
    requires
        t.holds(es),
        t.gamma >= 1,
        all_fit(es, t.xi as nat),
        t0.counters.len() == t.counters.len(),
        still_shown(t0, t, out),
        forall|a: int| 0 <= a < q.len() ==> is_pure(t0, #[trigger] q[a]),
        forall|a: int, b: int| 0 <= a < b < q.len() ==> #[trigger] q[a] < #[trigger] q[b],
        0 <= m <= q.len(),
        had_their_turn(t0, q, m, out),
    ensures
        t.peel(q.skip(m) + extra, out) matches Ok(res) ==> forall|a: int|
            0 <= a < q.len() ==> in_its_place(t0, res, #[trigger] q[a]),
    decreases q.len() - m,
{
    let queue = q.skip(m) + extra;
    if m == q.len() {
        lemma_peel_of_held(t, queue, out, es);
        if t.peel(queue, out) is Ok {
            let res = t.peel(queue, out)->Ok_0;
            assert forall|a: int| 0 <= a < q.len() implies in_its_place(
                t0,
                res,
                #[trigger] q[a],
            ) by {
                assert(in_its_place(t0, out, q[a]));
                lemma_place_kept(t0, out, res, q[a]);
            }
        }
    } else {
        let ci = q[m];
        let rest = queue.drop_first();
        assert(queue[0] == ci);
        assert(rest =~= q.skip(m + 1) + extra);
        assert(is_pure(t0, ci));
        if t.counters[ci] == 1 {
            let i = lemma_pure_cell(t, es, ci);
            let e = es[i];
            let left = t.removed(e);
            let now = out.push(e);
            let more = left.pure_cells_of(e, t.gamma as int);
            let es2 = es.remove(i);
            assert(e.fits(t.xi as nat));
            lemma_total_drops(left.counters, t.counters, ci);
            assert forall|k: int| 0 <= k < es2.len() implies (#[trigger] es2[k]).fits(
                left.xi as nat,
            ) by {
                assert(es2[k] == es[if k < i {
                    k
                } else {
                    k + 1
                }]);
            }
            lemma_still_shown(t0, t, out, es, i);
            lemma_turn_peeled(t0, q, m, out, e);
            assert(rest + more =~= q.skip(m + 1) + (extra + more));
            lemma_first_wave(t0, left, q, m + 1, extra + more, now, es2);
        } else {
            lemma_turn_passed(t0, q, m, out);
            lemma_first_wave(t0, t, q, m + 1, extra, out, es);
        }
    }
}

proof fn lemma_still_shown(t0: Table, t: Table, out: Seq<Packed>, es: Seq<Packed>, i: int)
    requires
        t.holds(es),
        all_fit(es, t.xi as nat),
        t0.counters.len() == t.counters.len(),
        still_shown(t0, t, out),
        0 <= i < es.len(),
    ensures
        still_shown(t0, t.removed(es[i]), out.push(es[i])),
{
    let e = es[i];
    let left = t.removed(e);
    let now = out.push(e);
    assert forall|cj: int| #[trigger] is_pure(t0, cj) implies (left.counters[cj] == 1
        && left.entry_at(cj) == t0.entry_at(cj)) || (left.counters[cj] == 0 && now.contains(
        t0.entry_at(cj),
    )) by {
        lemma_shown_after(t, es, i, cj);
        if out.contains(t0.entry_at(cj)) {
            let k = choose|k: int| 0 <= k < out.len() && out[k] == t0.entry_at(cj);
            assert(now[k] == t0.entry_at(cj));
        }
        assert(now[out.len() as int] == e);
    }
}

/// Pure cell `m` has its turn and its entry comes out.
proof fn lemma_turn_peeled(t0: Table, q: Seq<int>, m: int, out: Seq<Packed>, e: Packed)
    requires
        forall|a: int| 0 <= a < q.len() ==> is_pure(t0, #[trigger] q[a]),
        forall|a: int, b: int| 0 <= a < b < q.len() ==> #[trigger] q[a] < #[trigger] q[b],
        0 <= m < q.len(),
        had_their_turn(t0, q, m, out),
        e == t0.entry_at(q[m]),
    ensures
        had_their_turn(t0, q, m + 1, out.push(e)),
{
    let now = out.push(e);
    let bound = if m + 1 < q.len() {
        q[m + 1]
    } else {
        t0.counters.len() as int
    };
    assert(is_pure(t0, q[m]) && q[m] < bound);
    assert forall|l: int| 0 <= l < now.len() implies shown_before(
        t0,
        #[trigger] now[l],
        bound,
    ) by {
        if l < out.len() {
            assert(shown_before(t0, out[l], q[m]));
        }
    }
    assert forall|a: int| 0 <= a < m + 1 implies in_its_place(t0, now, #[trigger] q[a]) by {
        if a < m {
            assert(in_its_place(t0, out, q[a]));
            assert(now.take(out.len() as int) =~= out);
            lemma_place_kept(t0, out, now, q[a]);
        } else {
            let k = out.len() as int;
            assert forall|l: int| 0 <= l < k implies shown_before(
                t0,
                #[trigger] now[l],
                q[m],
            ) by {
                assert(now[l] == out[l]);
            }
            assert(now[k] == t0.entry_at(q[m]));
        }
    }
}

/// Pure cell `m` has its turn when its entry is out already.
proof fn lemma_turn_passed(t0: Table, q: Seq<int>, m: int, out: Seq<Packed>)
    requires
        forall|a: int| 0 <= a < q.len() ==> is_pure(t0, #[trigger] q[a]),
        forall|a: int, b: int| 0 <= a < b < q.len() ==> #[trigger] q[a] < #[trigger] q[b],
        0 <= m < q.len(),
        had_their_turn(t0, q, m, out),
        out.contains(t0.entry_at(q[m])),
    ensures
        had_their_turn(t0, q, m + 1, out),
{
    let bound = if m + 1 < q.len() {
        q[m + 1]
    } else {
        t0.counters.len() as int
    };
    assert(is_pure(t0, q[m]) && q[m] < bound);
    assert forall|l: int| 0 <= l < out.len() implies shown_before(
        t0,
        #[trigger] out[l],
        bound,
    ) by {
        assert(shown_before(t0, out[l], q[m]));
    }
    assert forall|a: int| 0 <= a < m + 1 implies in_its_place(t0, out, #[trigger] q[a]) by {
        if a == m {
            let k = choose|k: int| 0 <= k < out.len() && out[k] == t0.entry_at(q[m]);
            assert(from_earlier_cells(t0, out, k, q[m]));
            assert(out[k] == t0.entry_at(q[m]));
        }
    }
}

/// What is appended keeps the entries in front of it in their places.
proof fn lemma_place_kept(t: Table, out: Seq<Packed>, res: Seq<Packed>, ci: int)
    requires
        in_its_place(t, out, ci),
        out.len() <= res.len(),
        res.take(out.len() as int) == out,
    ensures
        in_its_place(t, res, ci),
{
    let k = choose|k: int|
        0 <= k < out.len() && #[trigger] out[k] == t.entry_at(ci) && from_earlier_cells(
            t,
            out,
            k,
            ci,
        );
    assert forall|l: int| 0 <= l <= k implies #[trigger] res[l] == out[l] by {
        assert(res.take(out.len() as int)[l] == res[l]);
    }
    assert forall|l: int| 0 <= l < k implies shown_before(t, #[trigger] res[l], ci) by {
        assert(shown_before(t, out[l], ci));
    }
    assert(res[k] == t.entry_at(ci));
}

/// What taking out entry `i` does to a cell that counts at most one entry.
proof fn lemma_shown_after(t: Table, es: Seq<Packed>, i: int, cj: int)
    requires
        t.holds(es),
        all_fit(es, t.xi as nat),
        0 <= i < es.len(),
        0 <= cj < t.cells(),
        t.counters[cj] <= 1,
    ensures
        t.counters[cj] == 0 ==> t.removed(es[i]).counters[cj] == 0,
        t.counters[cj] == 1 && es[i].hits(cj, t.delta as nat) ==> t.removed(es[i]).counters[cj]
            == 0 && t.entry_at(cj) == es[i],
        t.counters[cj] == 1 && !es[i].hits(cj, t.delta as nat) ==> t.removed(es[i]).counters[cj]
            == 1 && t.removed(es[i]).entry_at(cj) == t.entry_at(cj),
{
    let d = t.delta as nat;
    let e = es[i];
    let left = t.removed(e);
    let x = t.xi as int;
    assert(t.counters[cj] == hit_count(es, cj, d));
    if t.counters[cj] == 1 {
        let j = lemma_pure_cell(t, es, cj);
        if e.hits(cj, d) {
            if i != j {
                let rest = es.remove(j);
                let k = if i < j {
                    i
                } else {
                    i - 1
                };
                assert(rest[k] == e);
                lemma_counted(rest, k, cj, d);
            }
        } else {
            assert forall|v: int| 0 <= v < x implies left.entry_at(cj).values[v] == t.entry_at(
                cj,
            ).values[v] by {
                lemma_cell_index(cj, v, x);
                crate::auction::iblt::lemma_block_fits(cj, v, t.cells() as int, x);
            }
            assert(left.entry_at(cj) =~= t.entry_at(cj));
        }
    }
}

/// Entries that have a cell to themselves are recovered first, in the order of
/// the first such cell of each.
pub proof fn law_lone_entries_are_recovered_first(t: Table, es: Seq<Packed>, ci: int)
    requires
        t.shape_ok(),
        t.holds(es),
        es.len() < P,
        all_fit(es, t.xi as nat),
        t.recovered() is Ok,
        is_pure(t, ci),
    ensures
        in_its_place(t, t.recovered()->Ok_0, ci),
{
    let n = t.counters.len() as int;
    let q = t.pure_cells(n);
    lemma_holding_is_canonical(t, es);
    assert(q.skip(0) + Seq::<int>::empty() =~= q);
    lemma_pure_cells_ascend(t, n);
    assert(had_their_turn(t, q, 0, Seq::empty()));
    lemma_first_wave(t, t, q, 0, Seq::empty(), Seq::empty(), es);
    lemma_pure_cells_complete(t, n, ci);
    let a = choose|a: int| 0 <= a < q.len() && q[a] == ci;
    assert(in_its_place(t, t.recovered()->Ok_0, q[a]));
}

// ---------------------------------------------------------------------------
// Where recovery stops
// ---------------------------------------------------------------------------

/// `left` is what remains of `t` once the entries `out` have been taken off:
/// every cell counts as many fewer as occupy it, and lacks their sums modulo p.
pub open spec fn taken_off(t: Table, out: Seq<Packed>, left: Table) -> bool {
    let d = t.delta as nat;
    &&& left.laid_out()
    &&& left.is_canonical()
    &&& left.estimated_elements == t.estimated_elements
    &&& left.gamma == t.gamma && left.delta == t.delta && left.xi == t.xi
    &&& forall|ci: int|
        0 <= ci < t.cells() ==> t.counters[ci] == #[trigger] left.counters[ci] + hit_count(
            out,
            ci,
            d,
        )
    &&& forall|ci: int|
        0 <= ci < t.cells() ==> t.keys[ci] == (#[trigger] left.keys[ci] + hit_sum(out, ci, -1, d))
            % 0x1eeed4e13a526bab
    &&& forall|vi: int|
        0 <= vi < t.values.len() ==> t.values[vi] == (#[trigger] left.values[vi] + hit_sum(
            out,
            vi / t.xi as int,
            vi % t.xi as int,
            d,
        )) % 0x1eeed4e13a526bab
}

/// Pure cell `ci` shows a key of seven bytes that does not belong in the cell.
pub open spec fn is_phantom(t: Table, ci: int) -> bool {
    t.keys[ci] < 0x100_0000_0000_0000 && !t.entry_at(ci).hits(ci, t.delta as nat)
}

/// Every pure cell is queued or shows a key that does not belong there.
spec fn settled(t: Table, queue: Seq<int>) -> bool {
    forall|ci: int| #[trigger] is_pure(t, ci) ==> queue.contains(ci) || is_phantom(t, ci)
}

/// Recovery stops at what is left of the table: nothing can be taken off any
/// more, though something is left.
pub open spec fn stalls_at(left: Table) -> bool {
    &&& !left.is_zero()
    &&& forall|ci: int| #[trigger] is_pure(left, ci) ==> is_phantom(left, ci)
}

/// Pure cell `ci` shows a key, or at its place a value, of more than seven bytes.
pub open spec fn is_too_wide(left: Table, ci: int) -> bool {
    &&& is_pure(left, ci)
    &&& left.keys[ci] >= 0x100_0000_0000_0000 || (left.entry_at(ci).hits(ci, left.delta as nat)
        && exists|v: int|
        0 <= v < left.xi && #[trigger] left.entry_at(ci).values[v] >= 0x100_0000_0000_0000)
}

/// Pure cell `ci` shows an entry at its place that another of its cells does not
/// count.
pub open spec fn is_uncounted(left: Table, ci: int) -> bool {
    let e = left.entry_at(ci);
    &&& is_pure(left, ci)
    &&& e.hits(ci, left.delta as nat)
    &&& exists|row: int|
        0 <= row < left.gamma && left.counters[#[trigger] e.cell(row, left.delta as nat)] == 0
}

/// What an error of recovery says of the table.
pub open spec fn explains(t: Table, e: IbltError) -> bool {
    match e {
        IbltError::PeelStalled => exists|out: Seq<Packed>, left: Table| #[trigger]
            taken_off(t, out, left) && stalls_at(left),
        IbltError::InvalidPackedElement => exists|out: Seq<Packed>, left: Table, ci: int| #[trigger]
            taken_off(t, out, left) && #[trigger] is_too_wide(left, ci),
        IbltError::UnexpectedZeroCounter => exists|
            out: Seq<Packed>,
            left: Table,
            ci: int,
        | #[trigger]
            taken_off(t, out, left) && #[trigger] is_uncounted(left, ci),
        _ => false,
    }
}

proof fn lemma_moved(a: int, b: int, s: int)
    ensures
        ((a - b) % (P as int) + (s + b)) % (P as int) == (a + s) % (P as int),
{
    let p = P as int;
    lemma_add_mod_noop(a - b, s + b, p);
    lemma_add_mod_noop((a - b) % p, s + b, p);
    lemma_mod_twice(a - b, p);
}

proof fn lemma_one_more_off(t0: Table, t: Table, out: Seq<Packed>, ci: int)
    requires
        t0.laid_out(),
        taken_off(t0, out, t),
        is_pure(t, ci),
        !t.misses(t.entry_at(ci)),
    ensures
        taken_off(t0, out.push(t.entry_at(ci)), t.removed(t.entry_at(ci))),
{
    let e = t.entry_at(ci);
    let left = t.removed(e);
    let more = out.push(e);
    let d = t.delta as nat;
    assert(more.drop_last() =~= out);
    assert(more.last() == e);
    lemma_removed_is_canonical(t, e);
    assert forall|cj: int| 0 <= cj < t0.cells() implies t0.counters[cj]
        == #[trigger] left.counters[cj] + hit_count(more, cj, d) by {
        assert(t.counters[cj] + hit_count(out, cj, d) == t0.counters[cj]);
        if e.hits(cj, d) {
            lemma_block(cj, d as int);
            lemma_block_bound(cj, t.gamma as int, d as int);
            let row = cj / d as int;
            e.lemma_cell(row, cj, t.gamma as int, d);
            assert(t.counters[e.cell(row, t.delta as nat)] != 0);
        }
    }
    assert forall|cj: int| 0 <= cj < t0.cells() implies t0.keys[cj] == (#[trigger] left.keys[cj]
        + hit_sum(more, cj, -1, d)) % 0x1eeed4e13a526bab by {
        assert((t.keys[cj] + hit_sum(out, cj, -1, d)) % 0x1eeed4e13a526bab == t0.keys[cj]);
        lemma_moved(t.keys[cj] as int, e.key as int, hit_sum(out, cj, -1, d) as int);
    }
    assert forall|vi: int| 0 <= vi < t0.values.len() implies t0.values[vi] == (
    #[trigger] left.values[vi] + hit_sum(more, vi / t.xi as int, vi % t.xi as int, d))
        % 0x1eeed4e13a526bab by {
        let x = t.xi as int;
        if x == 0 {
            assert(t.cells() * 0 == 0);
        }
        lemma_block(vi, x);
        let r = hit_sum(out, vi / x, vi % x, d) as int;
        assert((t.values[vi] + r) % 0x1eeed4e13a526bab == t0.values[vi]);
        lemma_moved(t.values[vi] as int, e.values[vi % x] as int, r);
    }
}

/// A pure cell that the removal of an entry leaves alone shows what it showed.
proof fn lemma_same_cell(t: Table, e: Packed, cj: int)
    requires
        t.laid_out(),
        0 <= cj < t.cells(),
        !e.hits(cj, t.delta as nat),
    ensures
        t.removed(e).entry_at(cj) == t.entry_at(cj),
{
    let x = t.xi as int;
    let a = t.removed(e).entry_at(cj);
    let b = t.entry_at(cj);
    assert forall|v: int| 0 <= v < x implies a.values[v] == b.values[v] by {
        lemma_cell_index(cj, v, x);
        lemma_block_fits(cj, v, t.cells() as int, x);
    }
    assert(a.values =~= b.values);
}

proof fn lemma_still_settled(t: Table, queue: Seq<int>)
    requires
        t.laid_out(),
        queue.len() > 0,
        settled(t, queue),
        is_pure(t, queue[0]),
        t.entry_at(queue[0]).hits(queue[0], t.delta as nat),
    ensures
        ({
            let e = t.entry_at(queue[0]);
            let left = t.removed(e);
            settled(left, queue.drop_first() + left.pure_cells_of(e, t.gamma as int))
        }),
{
    let e = t.entry_at(queue[0]);
    let d = t.delta as nat;
    let left = t.removed(e);
    let rest = queue.drop_first();
    let new = left.pure_cells_of(e, t.gamma as int);
    let queue2 = rest + new;
    assert forall|cj: int| #[trigger] is_pure(left, cj) implies queue2.contains(cj) || is_phantom(
        left,
        cj,
    ) by {
        if e.hits(cj, d) {
            lemma_block(cj, d as int);
            lemma_block_bound(cj, t.gamma as int, d as int);
            let r = cj / d as int;
            e.lemma_cell(r, cj, t.gamma as int, d);
            lemma_pure_cells_of_complete(left, e, t.gamma as int, r);
            let k = choose|k: int| 0 <= k < new.len() && new[k] == cj;
            assert(queue2[rest.len() + k] == cj);
        } else {
            assert(is_pure(t, cj));
            lemma_same_cell(t, e, cj);
            if queue.contains(cj) {
                let k = choose|k: int| 0 <= k < queue.len() && queue[k] == cj;
                assert(rest[k - 1] == cj);
                assert(queue2[k - 1] == cj);
            }
        }
    }
}

proof fn lemma_stops(t0: Table, t: Table, queue: Seq<int>, out: Seq<Packed>)
    requires
        t0.laid_out(),
        taken_off(t0, out, t),
        settled(t, queue),
    ensures
        t.peel(queue, out) matches Err(e) ==> explains(t0, e),
    decreases total(t.counters), queue.len(),
{
    if queue.len() == 0 {
        if !t.is_zero() {
            assert forall|ci: int| #[trigger] is_pure(t, ci) implies is_phantom(t, ci) by {
                assert(!queue.contains(ci));
            }
            assert(stalls_at(t));
        }
    } else {
        let ci = queue[0];
        let rest = queue.drop_first();
        let e = t.entry_at(ci);
        let d = t.delta as nat;
        if !is_pure(t, ci) || (e.key < PACK_LIMIT && !e.hits(ci, d)) {
            assert forall|cj: int| #[trigger] is_pure(t, cj) implies rest.contains(cj)
                || is_phantom(t, cj) by {
                if queue.contains(cj) {
                    let k = choose|k: int| 0 <= k < queue.len() && queue[k] == cj;
                    if k > 0 {
                        assert(rest[k - 1] == cj);
                    }
                }
            }
            lemma_stops(t0, t, rest, out);
        } else if e.key >= PACK_LIMIT || t.has_wide_value(ci) {
            assert(is_too_wide(t, ci));
        } else if t.misses(e) {
            assert(is_uncounted(t, ci));
        } else {
            let left = t.removed(e);
            lemma_total_drops(left.counters, t.counters, ci);
            lemma_one_more_off(t0, t, out, ci);
            lemma_still_settled(t, queue);
            lemma_stops(t0, left, rest + left.pure_cells_of(e, t.gamma as int), out.push(e));
        }
    }
}

/// Whatever the table and whoever built it, an error tells what recovery met
/// once it had taken some entries off. A stall: something is left, and every
/// cell that counts one entry shows a key that does not belong there. A bad
/// element: a cell that counts one entry shows a key, or at its place a value,
/// of more than seven bytes. An unexpected zero: an entry at its place is not
/// counted by another of its cells.
pub proof fn law_recovery_stops_only_if(t: Table)
    requires
        t.shape_ok(),
        t.is_canonical(),
    ensures
        t.recovered() matches Err(e) ==> explains(t, e),
{
    let queue = t.pure_cells(t.cells() as int);
    let none = Seq::<Packed>::empty();
    assert(taken_off(t, none, t)) by {
        assert forall|ci: int| 0 <= ci < t.cells() implies t.keys[ci] == (#[trigger] t.keys[ci]
            + hit_sum(none, ci, -1, t.delta as nat)) % 0x1eeed4e13a526bab by {
            assert(canonical(t.keys[ci]));
            lemma_small_mod(t.keys[ci] as nat, P as nat);
        }
        assert forall|vi: int| 0 <= vi < t.values.len() implies t.values[vi] == (
        #[trigger] t.values[vi] + hit_sum(
            none,
            vi / t.xi as int,
            vi % t.xi as int,
            t.delta as nat,
        )) % 0x1eeed4e13a526bab by {
            assert(canonical(t.values[vi]));
            lemma_small_mod(t.values[vi] as nat, P as nat);
        }
    }
    assert forall|ci: int| #[trigger] is_pure(t, ci) implies queue.contains(ci) by {
        lemma_pure_cells_complete(t, t.cells() as int, ci);
    }
    lemma_stops(t, t, queue, none);
}

} // verus!
