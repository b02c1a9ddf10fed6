//! Laws of the auction over the bids themselves: no selection of them outweighs
//! the winners, how ties are broken, and which slot each winner gets.

use vstd::prelude::*;

use crate::bytes::bytes_le;
use crate::sorting::lemma_sorted_positions;
use crate::sums::{lemma_sum_same, sum};

use super::auction::{
    auction, awards, best, chosen, chunks_for, chunks_of, eligible, knapsack_winners,
    law_best_is_optimal, law_chosen_fit_and_are_best, law_slots_are_disjoint,
    law_winners_are_in_hash_order, offset, takes, weight_of, Award, AuctionWinner, Bid, Item,
};

verus! {

/// The bytes that a slot for `b` takes: its size, but `min` at least, filled up
/// to a multiple of `chunk`.
pub open spec fn slot_bytes(b: Bid, min: u32, chunk: u32) -> int {
    let need = if b.size < min {
        min as int
    } else {
        b.size as int
    };
    if need % (chunk as int) == 0 {
        need
    } else {
        need - need % (chunk as int) + chunk
    }
}

/// The weights of the bids picked, added up.
pub open spec fn picked_weight(bids: Seq<Bid>, picked: Seq<bool>) -> int {
    sum(
        |i: int|
            if picked[i] {
                bids[i].weight as int
            } else {
                0
            },
        bids.len() as int,
    )
}

/// The slots for the bids picked, added up.
pub open spec fn picked_bytes(bids: Seq<Bid>, min: u32, chunk: u32, picked: Seq<bool>) -> int {
    sum(
        |i: int|
            if picked[i] {
                slot_bytes(bids[i], min, chunk)
            } else {
                0
            },
        bids.len() as int,
    )
}

/// A choice of bids whose slots fit in the bandwidth.
pub open spec fn fits(
    bids: Seq<Bid>,
    bandwidth: u32,
    min: u32,
    chunk: u32,
    picked: Seq<bool>,
) -> bool {
    picked.len() == bids.len() && picked_bytes(bids, min, chunk, picked) <= bandwidth
}

/// Only bids of positive weight are picked.
pub open spec fn worthwhile(bids: Seq<Bid>, picked: Seq<bool>) -> bool {
    forall|i: int| 0 <= i < bids.len() && #[trigger] picked[i] ==> bids[i].weight > 0
}

/// `a` and `b` part at position `k` for the last time, where `b` picks and `a`
/// does not.
pub open spec fn spares_later(a: Seq<bool>, b: Seq<bool>, k: int) -> bool {
    &&& 0 <= k < a.len()
    &&& !a[k] && b[k]
    &&& forall|i: int| k < i < a.len() ==> #[trigger] a[i] == b[i]
}

// ---------------------------------------------------------------------------
// Bids and items
// ---------------------------------------------------------------------------

proof fn lemma_chunks(b: Bid, min: u32, chunk: u32)
    requires
        chunk > 0,
    ensures
        chunks_for(b.raised(min).size, chunk) * chunk == slot_bytes(b, min, chunk),
        0 <= chunks_for(b.raised(min).size, chunk),
        b.raised(min).size <= slot_bytes(b, min, chunk) < b.raised(min).size + chunk,
        slot_bytes(b, min, chunk) % (chunk as int) == 0,
{
    let c = chunk as int;
    let need = b.raised(min).size as int;
    let q = need / c;
    let r = need % c;
    vstd::arithmetic::div_mod::lemma_fundamental_div_mod(need, c);
    assert(0 <= r < c) by {
        vstd::arithmetic::div_mod::lemma_mod_bound(need, c);
    }
    vstd::arithmetic::div_mod::lemma_div_pos_is_pos(need, c);
    vstd::arithmetic::mul::lemma_mul_is_commutative(q, c);
    let n = need + c - 1;
    if r == 0 {
        assert(n == q * c + (c - 1));
        vstd::arithmetic::div_mod::lemma_fundamental_div_mod_converse(n, c, q, c - 1);
        vstd::arithmetic::div_mod::lemma_fundamental_div_mod_converse(q * c, c, q, 0);
    } else {
        assert((q + 1) * c == q * c + c) by (nonlinear_arith);
        assert(n == (q + 1) * c + (r - 1));
        vstd::arithmetic::div_mod::lemma_fundamental_div_mod_converse(n, c, q + 1, r - 1);
        vstd::arithmetic::div_mod::lemma_fundamental_div_mod_converse((q + 1) * c, c, q + 1, 0);
    }
}

/// A number of chunks fits in the bandwidth exactly if its bytes do.
proof fn lemma_whole_chunks(k: int, bandwidth: u32, chunk: u32)
    requires
        chunk > 0,
    ensures
        k <= bandwidth / chunk <==> k * chunk <= bandwidth,
{
    let c = chunk as int;
    let cap = (bandwidth / chunk) as int;
    vstd::arithmetic::div_mod::lemma_fundamental_div_mod(bandwidth as int, c);
    vstd::arithmetic::div_mod::lemma_mod_bound(bandwidth as int, c);
    vstd::arithmetic::mul::lemma_mul_is_commutative(cap, c);
    if k <= cap {
        assert(k * c <= cap * c) by (nonlinear_arith)
            requires
                k <= cap,
                c > 0,
        ;
    } else {
        assert(k * c >= cap * c + c) by (nonlinear_arith)
            requires
                k >= cap + 1,
                c > 0,
        ;
    }
}

/// Whether the last bid is eligible, and the item that it becomes.
proof fn lemma_last_bid(bids: Seq<Bid>, bandwidth: u32, min: u32, chunk: u32)
    requires
        chunk > 0,
        bids.len() > 0,
    ensures
        ({
            let items = eligible(bids, bandwidth, min, chunk);
            let before = eligible(bids.drop_last(), bandwidth, min, chunk);
            let b = bids.last();
            if b.weight > 0 && slot_bytes(b, min, chunk) <= bandwidth {
                &&& items == before.push(items.last())
                &&& items.last().bid == b.raised(min)
                &&& items.last().chunks * chunk == slot_bytes(b, min, chunk)
            } else {
                items == before
            }
        }),
{
    let b = bids.last();
    lemma_chunks(b, min, chunk);
    lemma_whole_chunks(chunks_for(b.raised(min).size, chunk), bandwidth, chunk);
    assert(slot_bytes(b, min, chunk) >= 0);
}

/// The part of a choice of bids that concerns eligible ones.
spec fn lowered(
    bids: Seq<Bid>,
    bandwidth: u32,
    min: u32,
    chunk: u32,
    picked: Seq<bool>,
) -> Seq<bool>
    decreases bids.len(),
{
    if bids.len() == 0 {
        Seq::empty()
    } else {
        let before = lowered(bids.drop_last(), bandwidth, min, chunk, picked.drop_last());
        let b = bids.last();
        if b.weight > 0 && slot_bytes(b, min, chunk) <= bandwidth {
            before.push(picked.last())
        } else {
            before
        }
    }
}

/// The bids that a choice of eligible ones picks.
spec fn lifted(
    bids: Seq<Bid>,
    bandwidth: u32,
    min: u32,
    chunk: u32,
    selected: Seq<bool>,
) -> Seq<bool>
    decreases bids.len(),
{
    if bids.len() == 0 {
        Seq::empty()
    } else {
        let b = bids.last();
        if b.weight > 0 && slot_bytes(b, min, chunk) <= bandwidth {
            lifted(bids.drop_last(), bandwidth, min, chunk, selected.drop_last()).push(
                selected.last(),
            )
        } else {
            lifted(bids.drop_last(), bandwidth, min, chunk, selected).push(false)
        }
    }
}

/// What concerns the first items does not depend on later ones.
proof fn lemma_first_items(items: Seq<Item>, x: Item, selected: Seq<bool>, k: int, w: int)
    requires
        0 <= k <= items.len(),
        selected.len() <= items.len(),
    ensures
        best(items.push(x), k, w) == best(items, k, w),
        chosen(items.push(x), k, w) == chosen(items, k, w),
        weight_of(items.push(x), selected) == weight_of(items, selected),
        chunks_of(items.push(x), selected) == chunks_of(items, selected),
    decreases k + selected.len(),
{
    if selected.len() > 0 {
        lemma_first_items(items, x, selected.drop_last(), k, w);
    } else if k > 0 {
        lemma_first_items(items, x, selected, k - 1, w);
        lemma_first_items(items, x, selected, k - 1, w - items[k - 1].chunks);
        assert(items.push(x)[k - 1] == items[k - 1]);
        assert(takes(items.push(x), k - 1, w) == takes(items, k - 1, w));
    }
}

proof fn lemma_picked_split(bids: Seq<Bid>, min: u32, chunk: u32, picked: Seq<bool>)
    requires
        bids.len() > 0,
        picked.len() == bids.len(),
    ensures
        picked_weight(bids, picked) == picked_weight(bids.drop_last(), picked.drop_last())
            + if picked.last() {
            bids.last().weight as int
        } else {
            0
        },
        picked_bytes(bids, min, chunk, picked) == picked_bytes(
            bids.drop_last(),
            min,
            chunk,
            picked.drop_last(),
        ) + if picked.last() {
            slot_bytes(bids.last(), min, chunk)
        } else {
            0
        },
{
    let init = bids.drop_last();
    let some = picked.drop_last();
    let n = bids.len() - 1;
    lemma_sum_same(
        |i: int|
            if picked[i] {
                bids[i].weight as int
            } else {
                0
            },
        |i: int|
            if some[i] {
                init[i].weight as int
            } else {
                0
            },
        n,
    );
    lemma_sum_same(
        |i: int|
            if picked[i] {
                slot_bytes(bids[i], min, chunk)
            } else {
                0
            },
        |i: int|
            if some[i] {
                slot_bytes(init[i], min, chunk)
            } else {
                0
            },
        n,
    );
}

/// The eligible part of a choice that fits takes no more bytes and has all of
/// its weight.
proof fn lemma_lowered(
    bids: Seq<Bid>,
    bandwidth: u32,
    min: u32,
    chunk: u32,
    picked: Seq<bool>,
)
    requires
        chunk > 0,
        fits(bids, bandwidth, min, chunk, picked),
    ensures
        ({
            let items = eligible(bids, bandwidth, min, chunk);
            let selected = lowered(bids, bandwidth, min, chunk, picked);
            &&& selected.len() == items.len()
            &&& chunks_of(items, selected) * chunk <= picked_bytes(bids, min, chunk, picked)
            &&& weight_of(items, selected) == picked_weight(bids, picked)
        }),
    decreases bids.len(),
{
    if bids.len() == 0 {
        assert(0 * chunk == 0);
    } else {
        let init = bids.drop_last();
        let some = picked.drop_last();
        let b = bids.last();
        lemma_picked_split(bids, min, chunk, picked);
        lemma_chunks(b, min, chunk);
        lemma_bytes_positive(init, min, chunk, some);
        lemma_lowered(init, bandwidth, min, chunk, some);
        lemma_last_bid(bids, bandwidth, min, chunk);
        let items = eligible(bids, bandwidth, min, chunk);
        let before = eligible(init, bandwidth, min, chunk);
        let sel = lowered(init, bandwidth, min, chunk, some);
        if b.weight > 0 && slot_bytes(b, min, chunk) <= bandwidth {
            let x = items.last();
            let all = lowered(bids, bandwidth, min, chunk, picked);
            assert(all.drop_last() =~= sel);
            lemma_first_items(before, x, sel, 0, 0);
            let k = chunks_of(before, sel);
            assert((k + x.chunks) * chunk == k * chunk + x.chunks * chunk) by (nonlinear_arith);
        }
    }
}

proof fn lemma_bytes_positive(bids: Seq<Bid>, min: u32, chunk: u32, picked: Seq<bool>)
    requires
        chunk > 0,
        picked.len() == bids.len(),
    ensures
        picked_bytes(bids, min, chunk, picked) >= 0,
    decreases bids.len(),
{
    if bids.len() > 0 {
        lemma_picked_split(bids, min, chunk, picked);
        lemma_chunks(bids.last(), min, chunk);
        lemma_bytes_positive(bids.drop_last(), min, chunk, picked.drop_last());
    }
}

/// The bids behind a choice of items have its weight and take its bytes.
proof fn lemma_lifted(
    bids: Seq<Bid>,
    bandwidth: u32,
    min: u32,
    chunk: u32,
    selected: Seq<bool>,
)
    requires
        chunk > 0,
        selected.len() == eligible(bids, bandwidth, min, chunk).len(),
    ensures
        ({
            let items = eligible(bids, bandwidth, min, chunk);
            let picked = lifted(bids, bandwidth, min, chunk, selected);
            &&& picked.len() == bids.len()
            &&& worthwhile(bids, picked)
            &&& chunks_of(items, selected) * chunk == picked_bytes(bids, min, chunk, picked)
            &&& weight_of(items, selected) == picked_weight(bids, picked)
        }),
    decreases bids.len(),
{
    let picked = lifted(bids, bandwidth, min, chunk, selected);
    if bids.len() == 0 {
        assert(0 * chunk == 0);
    } else {
        let init = bids.drop_last();
        let b = bids.last();
        lemma_last_bid(bids, bandwidth, min, chunk);
        let items = eligible(bids, bandwidth, min, chunk);
        let before = eligible(init, bandwidth, min, chunk);
        if b.weight > 0 && slot_bytes(b, min, chunk) <= bandwidth {
            let sel = selected.drop_last();
            lemma_lifted(init, bandwidth, min, chunk, sel);
            let some = lifted(init, bandwidth, min, chunk, sel);
            assert(picked.drop_last() =~= some);
            lemma_picked_split(bids, min, chunk, picked);
            let x = items.last();
            lemma_first_items(before, x, sel, 0, 0);
            let k = chunks_of(before, sel);
            assert((k + x.chunks) * chunk == k * chunk + x.chunks * chunk) by (nonlinear_arith);
            assert forall|i: int| 0 <= i < bids.len() && #[trigger] picked[i] implies bids[i].weight
                > 0 by {
                if i < init.len() {
                    assert(some[i]);
                    assert(init[i] == bids[i]);
                }
            }
        } else {
            lemma_lifted(init, bandwidth, min, chunk, selected);
            let some = lifted(init, bandwidth, min, chunk, selected);
            assert(picked.drop_last() =~= some);
            lemma_picked_split(bids, min, chunk, picked);
            assert forall|i: int| 0 <= i < bids.len() && #[trigger] picked[i] implies bids[i].weight
                > 0 by {
                if i < init.len() {
                    assert(some[i]);
                    assert(init[i] == bids[i]);
                }
            }
        }
    }
}

/// The bids that the auction picks.
pub closed spec fn winning(bids: Seq<Bid>, bandwidth: u32, min: u32, chunk: u32) -> Seq<bool> {
    let items = eligible(bids, bandwidth, min, chunk);
    lifted(
        bids,
        bandwidth,
        min,
        chunk,
        chosen(items, items.len() as int, (bandwidth / chunk) as int),
    )
}

// ---------------------------------------------------------------------------
// Optimality
// ---------------------------------------------------------------------------

/// The bids that the auction picks fit in the bandwidth and have positive
/// weight, and no choice of bids that fits outweighs them. A bid is left out of
/// account only if it has no weight or its slot alone exceeds the bandwidth.
pub proof fn law_no_choice_of_bids_outweighs_the_winners(
    bids: Seq<Bid>,
    bandwidth: u32,
    min: u32,
    chunk: u32,
    picked: Seq<bool>,
)
    requires
        chunk > 0,
        fits(bids, bandwidth, min, chunk, picked),
    ensures
        fits(bids, bandwidth, min, chunk, winning(bids, bandwidth, min, chunk)),
        worthwhile(bids, winning(bids, bandwidth, min, chunk)),
        picked_weight(bids, picked) <= picked_weight(
            bids,
            winning(bids, bandwidth, min, chunk),
        ),
{
    let items = eligible(bids, bandwidth, min, chunk);
    let cap = (bandwidth / chunk) as int;
    let n = items.len() as int;
    let sel = chosen(items, n, cap);
    law_chosen_fit_and_are_best(items, n, cap);
    lemma_lifted(bids, bandwidth, min, chunk, sel);
    lemma_whole_chunks(chunks_of(items, sel) as int, bandwidth, chunk);
    lemma_lowered(bids, bandwidth, min, chunk, picked);
    let other = lowered(bids, bandwidth, min, chunk, picked);
    lemma_whole_chunks(chunks_of(items, other) as int, bandwidth, chunk);
    law_best_is_optimal(items, other, cap);
}

/// Where a worthwhile choice that reaches the best weight parts from the one
/// that the trace-back makes.
proof fn lemma_ties(
    bids: Seq<Bid>,
    bandwidth: u32,
    min: u32,
    chunk: u32,
    other: Seq<bool>,
    w: int,
) -> (k: int)
    requires
        chunk > 0,
        fits(bids, bandwidth, min, chunk, other),
        worthwhile(bids, other),
        0 <= w,
        ({
            let items = eligible(bids, bandwidth, min, chunk);
            let selected = lowered(bids, bandwidth, min, chunk, other);
            &&& chunks_of(items, selected) <= w
            &&& weight_of(items, selected) == best(items, items.len() as int, w)
            &&& other != lifted(
                bids,
                bandwidth,
                min,
                chunk,
                chosen(items, items.len() as int, w),
            )
        }),
    ensures
        spares_later(
            lifted(
                bids,
                bandwidth,
                min,
                chunk,
                chosen(
                    eligible(bids, bandwidth, min, chunk),
                    eligible(bids, bandwidth, min, chunk).len() as int,
                    w,
                ),
            ),
            other,
            k,
        ),
    decreases bids.len(),
{
    let items = eligible(bids, bandwidth, min, chunk);
    let n = items.len() as int;
    let sel = chosen(items, n, w);
    law_chosen_fit_and_are_best(items, n, w);
    let mine = lifted(bids, bandwidth, min, chunk, sel);
    if bids.len() == 0 {
        assert(other =~= mine);
        0
    } else {
        let init = bids.drop_last();
        let b = bids.last();
        let some = other.drop_last();
        let last = bids.len() - 1;
        lemma_last_bid(bids, bandwidth, min, chunk);
        lemma_picked_split(bids, min, chunk, other);
        lemma_chunks(b, min, chunk);
        lemma_bytes_positive(init, min, chunk, some);
        lemma_lowered(init, bandwidth, min, chunk, some);
        assert(worthwhile(init, some)) by {
            assert forall|i: int| 0 <= i < init.len() && #[trigger] some[i] implies init[i].weight
                > 0 by {
                assert(other[i]);
            }
        }
        let before = eligible(init, bandwidth, min, chunk);
        let lows = lowered(init, bandwidth, min, chunk, some);
        let all = lowered(bids, bandwidth, min, chunk, other);
        if b.weight > 0 && slot_bytes(b, min, chunk) <= bandwidth {
            let x = items.last();
            assert(all.drop_last() =~= lows);
            lemma_first_items(before, x, lows, n - 1, w);
            lemma_first_items(before, x, lows, n - 1, w - x.chunks);
            lemma_lifted(bids, bandwidth, min, chunk, sel);
            if sel.last() == other[last] {
                let v = if sel.last() {
                    w - x.chunks
                } else {
                    w
                };
                let deep = chosen(before, n - 1, v);
                assert(sel.drop_last() =~= deep);
                let less = lifted(init, bandwidth, min, chunk, deep);
                assert(mine =~= less.push(sel.last()));
                if some =~= less {
                    assert(other =~= mine);
                }
                let k = lemma_ties(init, bandwidth, min, chunk, some, v);
                assert forall|i: int| k < i < mine.len() implies #[trigger] mine[i] == other[i] by {
                    if i < last {
                        assert(less[i] == some[i]);
                    }
                }
                assert(less[k] == mine[k] && some[k] == other[k]);
                k
            } else {
                if sel.last() {
                    assert(takes(items, n - 1, w));
                    law_best_is_optimal(before, lows, w);
                    assert(false);
                }
                assert(mine[last] == sel.last());
                last
            }
        } else {
            assert(!other[last]);
            assert(all =~= lows);
            let less = lifted(init, bandwidth, min, chunk, sel);
            assert(mine =~= less.push(false));
            if some =~= less {
                assert(other =~= mine);
            }
            lemma_lifted(bids, bandwidth, min, chunk, sel);
            let k = lemma_ties(init, bandwidth, min, chunk, some, w);
            assert forall|i: int| k < i < mine.len() implies #[trigger] mine[i] == other[i] by {
                if i < last {
                    assert(less[i] == some[i]);
                }
            }
            assert(less[k] == mine[k] && some[k] == other[k]);
            k
        }
    }
}

/// Ties go to the earlier bids: another choice of bids of positive weight that
/// fits and weighs as much parts from the winners for the last time at a bid
/// that it picks and the auction does not.
pub proof fn law_ties_go_to_earlier_bids(
    bids: Seq<Bid>,
    bandwidth: u32,
    min: u32,
    chunk: u32,
    other: Seq<bool>,
)
    requires
        chunk > 0,
        fits(bids, bandwidth, min, chunk, other),
        worthwhile(bids, other),
        picked_weight(bids, other) == picked_weight(bids, winning(bids, bandwidth, min, chunk)),
        other != winning(bids, bandwidth, min, chunk),
    ensures
        exists|k: int| #[trigger]
            spares_later(winning(bids, bandwidth, min, chunk), other, k),
{
    let items = eligible(bids, bandwidth, min, chunk);
    let cap = (bandwidth / chunk) as int;
    let n = items.len() as int;
    let sel = chosen(items, n, cap);
    law_chosen_fit_and_are_best(items, n, cap);
    lemma_lifted(bids, bandwidth, min, chunk, sel);
    lemma_lowered(bids, bandwidth, min, chunk, other);
    let low = lowered(bids, bandwidth, min, chunk, other);
    lemma_whole_chunks(chunks_of(items, low) as int, bandwidth, chunk);
    let k = lemma_ties(bids, bandwidth, min, chunk, other, cap);
    assert(spares_later(winning(bids, bandwidth, min, chunk), other, k));
}

// ---------------------------------------------------------------------------
// Slots
// ---------------------------------------------------------------------------

/// Winner `i` is the bid at position `at[i]`, raised to the minimum size, with a
/// slot of its bytes that starts where the slots of the winners before it end.
/// The winners are the bids picked, by hash and then by position.
pub open spec fn slots_for(
    ws: Seq<Award>,
    bids: Seq<Bid>,
    min: u32,
    chunk: u32,
    picked: Seq<bool>,
    at: Seq<int>,
) -> bool {
    &&& at.len() == ws.len()
    &&& at.no_duplicates()
    &&& forall|i: int|
        0 <= i < at.len() ==> {
            let b = bids[at[i]];
            &&& 0 <= #[trigger] at[i] < bids.len()
            &&& picked[at[i]]
            &&& ws[i].bid.message_hash == b.message_hash
            &&& ws[i].bid.weight == b.weight
            &&& ws[i].bid.size == if b.size < min {
                min
            } else {
                b.size
            }
            &&& ws[i].slot_size == slot_bytes(b, min, chunk)
            &&& ws[i].slot_idx == sum(|j: int| ws[j].slot_size as int, i)
        }
    &&& forall|k: int| 0 <= k < bids.len() && #[trigger] picked[k] ==> at.contains(k)
    &&& forall|i: int, j: int|
        0 <= i < j < ws.len() ==> bytes_le(
            (#[trigger] ws[i]).bid.message_hash,
            (#[trigger] ws[j]).bid.message_hash,
        )
    &&& forall|i: int, j: int|
        0 <= i < j < at.len() && bytes_le(ws[j].bid.message_hash, ws[i].bid.message_hash)
            ==> #[trigger] at[i] < #[trigger] at[j]
}

/// The positions of the bids behind the awards for a choice of items, in
/// ascending order.
proof fn lemma_awarded(
    bids: Seq<Bid>,
    bandwidth: u32,
    min: u32,
    chunk: u32,
    selected: Seq<bool>,
) -> (at: Seq<int>)
    requires
        chunk > 0,
        selected.len() == eligible(bids, bandwidth, min, chunk).len(),
    ensures
        ({
            let ws = awards(eligible(bids, bandwidth, min, chunk), selected, chunk);
            let picked = lifted(bids, bandwidth, min, chunk, selected);
            &&& at.len() == ws.len()
            &&& picked.len() == bids.len()
            &&& forall|i: int, j: int| 0 <= i < j < at.len() ==> #[trigger] at[i] < #[trigger] at[j]
            &&& forall|i: int|
                0 <= i < at.len() ==> {
                    &&& 0 <= #[trigger] at[i] < bids.len()
                    &&& picked[at[i]]
                    &&& ws[i].bid == bids[at[i]].raised(min)
                    &&& ws[i].slot_size == slot_bytes(bids[at[i]], min, chunk)
                }
            &&& forall|k: int| 0 <= k < bids.len() && #[trigger] picked[k] ==> at.contains(k)
        }),
    decreases bids.len(),
{
    let picked = lifted(bids, bandwidth, min, chunk, selected);
    if bids.len() == 0 {
        Seq::empty()
    } else {
        let init = bids.drop_last();
        let b = bids.last();
        let items = eligible(bids, bandwidth, min, chunk);
        let before = eligible(init, bandwidth, min, chunk);
        let last = bids.len() - 1;
        lemma_last_bid(bids, bandwidth, min, chunk);
        lemma_chunks(b, min, chunk);
        if b.weight > 0 && slot_bytes(b, min, chunk) <= bandwidth {
            let sel = selected.drop_last();
            let was = lemma_awarded(init, bandwidth, min, chunk, sel);
            let some = lifted(init, bandwidth, min, chunk, sel);
            lemma_first_awards(before, items.last(), sel, chunk);
            assert(picked =~= some.push(selected.last()));
            let at = if selected.last() {
                was.push(last)
            } else {
                was
            };
            assert forall|i: int| 0 <= i < at.len() implies {
                let ws = awards(items, selected, chunk);
                &&& 0 <= #[trigger] at[i] < bids.len()
                &&& picked[at[i]]
                &&& ws[i].bid == bids[at[i]].raised(min)
                &&& ws[i].slot_size == slot_bytes(bids[at[i]], min, chunk)
            } by {
                if i < was.len() {
                    assert(at[i] == was[i]);
                    assert(init[was[i]] == bids[was[i]]);
                }
            }
            assert forall|k: int| 0 <= k < bids.len() && #[trigger] picked[k] implies at.contains(
                k,
            ) by {
                if k < last {
                    assert(some[k]);
                    let i = choose|i: int| 0 <= i < was.len() && was[i] == k;
                    assert(at[i] == k);
                } else {
                    assert(at[was.len() as int] == k);
                }
            }
            at
        } else {
            let was = lemma_awarded(init, bandwidth, min, chunk, selected);
            let some = lifted(init, bandwidth, min, chunk, selected);
            assert(picked =~= some.push(false));
            assert forall|i: int| 0 <= i < was.len() implies {
                let ws = awards(items, selected, chunk);
                &&& 0 <= #[trigger] was[i] < bids.len()
                &&& picked[was[i]]
                &&& ws[i].bid == bids[was[i]].raised(min)
                &&& ws[i].slot_size == slot_bytes(bids[was[i]], min, chunk)
            } by {
                assert(init[was[i]] == bids[was[i]]);
            }
            assert forall|k: int| 0 <= k < bids.len() && #[trigger] picked[k] implies was.contains(
                k,
            ) by {
                assert(some[k]);
            }
            was
        }
    }
}

proof fn lemma_first_awards(items: Seq<Item>, x: Item, selected: Seq<bool>, chunk: u32)
    requires
        selected.len() <= items.len(),
    ensures
        awards(items.push(x), selected, chunk) == awards(items, selected, chunk),
    decreases selected.len(),
{
    if selected.len() > 0 {
        lemma_first_awards(items, x, selected.drop_last(), chunk);
    }
}

proof fn lemma_offset(ws: Seq<Award>, n: int)
    requires
        0 <= n <= ws.len(),
    ensures
        offset(ws, n) == sum(|j: int| ws[j].slot_size as int, n),
    decreases n,
{
    if n > 0 {
        lemma_offset(ws, n - 1);
    }
}

/// Every bid that the auction picks gets a slot of its own, by hash and then by
/// position, one slot after the other from the start, and the slots together
/// stay within the bandwidth.
pub proof fn law_winners_get_their_slots(bids: Seq<Bid>, bandwidth: u32, min: u32, chunk: u32)
    requires
        chunk > 0,
        bandwidth >= chunk,
    ensures
        exists|at: Seq<int>| #[trigger]
            slots_for(
                auction(bids, bandwidth, min, chunk),
                bids,
                min,
                chunk,
                winning(bids, bandwidth, min, chunk),
                at,
            ),
        sum(
            |j: int| auction(bids, bandwidth, min, chunk)[j].slot_size as int,
            auction(bids, bandwidth, min, chunk).len() as int,
        ) <= bandwidth,
{
    let out = auction(bids, bandwidth, min, chunk);
    let items = eligible(bids, bandwidth, min, chunk);
    let cap = (bandwidth / chunk) as int;
    let sel = chosen(items, items.len() as int, cap);
    let picked = winning(bids, bandwidth, min, chunk);
    let ws = awards(items, sel, chunk);
    law_chosen_fit_and_are_best(items, items.len() as int, cap);
    law_slots_are_disjoint(bids, bandwidth, min, chunk);
    lemma_offset(out, out.len() as int);
    let from = lemma_awarded(bids, bandwidth, min, chunk, sel);
    let a = lemma_sorted_positions::<AuctionWinner>(ws);
    let sorted_ws = knapsack_winners(items, cap, chunk);
    if bids.len() == 0 {
        let none = Seq::<int>::empty();
        assert(slots_for(out, bids, min, chunk, picked, none));
    } else {
        let at = Seq::new(out.len(), |i: int| from[a[i]]);
        assert forall|i: int, j: int|
            0 <= i < at.len() && 0 <= j < at.len() && i != j implies at[i] != at[j] by {
            assert(a[i] != a[j]);
            assert(0 <= a[i] < from.len() && 0 <= a[j] < from.len());
            if a[i] < a[j] {
                assert(from[a[i]] < from[a[j]]);
            } else {
                assert(from[a[j]] < from[a[i]]);
            }
        }
        assert forall|i: int| 0 <= i < at.len() implies {
            let b = bids[at[i]];
            &&& 0 <= #[trigger] at[i] < bids.len()
            &&& picked[at[i]]
            &&& out[i].bid.message_hash == b.message_hash
            &&& out[i].bid.weight == b.weight
            &&& out[i].bid.size == if b.size < min {
                min
            } else {
                b.size
            }
            &&& out[i].slot_size == slot_bytes(b, min, chunk)
            &&& out[i].slot_idx == sum(|j: int| out[j].slot_size as int, i)
        } by {
            assert(0 <= a[i] < ws.len());
            assert(0 <= from[a[i]] < bids.len());
            assert(sorted_ws[i] == ws[a[i]]);
            lemma_offset(sorted_ws, i);
            lemma_sum_same(
                |j: int| sorted_ws[j].slot_size as int,
                |j: int| out[j].slot_size as int,
                i,
            );
            lemma_offset(out, i);
            lemma_prefix_fits(out, i);
        }
        assert forall|k: int| 0 <= k < bids.len() && #[trigger] picked[k] implies at.contains(
            k,
        ) by {
            assert(from.contains(k));
            let m = choose|m: int| 0 <= m < from.len() && from[m] == k;
            let i = lemma_hit(a, m);
            assert(at[i] == k);
        }
        assert forall|i: int, j: int| 0 <= i < j < out.len() implies bytes_le(
            (#[trigger] out[i]).bid.message_hash,
            (#[trigger] out[j]).bid.message_hash,
        ) by {
            law_winners_are_in_hash_order(bids, bandwidth, min, chunk, i, j);
        }
        assert forall|i: int, j: int|
            0 <= i < j < at.len() && bytes_le(
                out[j].bid.message_hash,
                out[i].bid.message_hash,
            ) implies #[trigger] at[i] < #[trigger] at[j] by {
            assert(sorted_ws[i].bid == out[i].bid && sorted_ws[j].bid == out[j].bid);
            assert(a[i] < a[j]);
            assert(0 <= a[i] < from.len() && 0 <= a[j] < from.len());
        }
        assert(slots_for(out, bids, min, chunk, picked, at));
    }
}

proof fn lemma_prefix_fits(ws: Seq<Award>, n: int)
    requires
        0 <= n <= ws.len(),
    ensures
        offset(ws, n) <= offset(ws, ws.len() as int),
    decreases ws.len() - n,
{
    if n < ws.len() {
        lemma_prefix_fits(ws, n + 1);
    }
}

/// Distinct numbers below their count hit every number below it.
proof fn lemma_hit(a: Seq<int>, m: int) -> (i: int)
    requires
        a.no_duplicates(),
        forall|i: int| 0 <= i < a.len() ==> 0 <= #[trigger] a[i] < a.len(),
        0 <= m < a.len(),
    ensures
        0 <= i < a.len(),
        a[i] == m,
{
    if !a.contains(m) {
        a.unique_seq_to_set();
        let all = vstd::set_lib::set_int_range(0, a.len() as int);
        vstd::set_lib::lemma_int_range(0, a.len() as int);
        assert(a.to_set().subset_of(all.remove(m))) by {
            assert forall|x: int| a.to_set().contains(x) implies all.remove(m).contains(x) by {
                let i = choose|i: int| 0 <= i < a.len() && a[i] == x;
                assert(0 <= a[i] < a.len());
            }
        }
        vstd::set_lib::lemma_len_subset(a.to_set(), all.remove(m));
    }
    choose|i: int| 0 <= i < a.len() && a[i] == m
}

/// The weights of the winners add up to at least those of any choice of bids
/// that fits.
pub proof fn law_winners_weigh_most(
    bids: Seq<Bid>,
    bandwidth: u32,
    min: u32,
    chunk: u32,
    picked: Seq<bool>,
)
    requires
        chunk > 0,
        bandwidth >= chunk,
        fits(bids, bandwidth, min, chunk, picked),
    ensures
        picked_weight(bids, picked) <= sum(
            |j: int| auction(bids, bandwidth, min, chunk)[j].bid.weight as int,
            auction(bids, bandwidth, min, chunk).len() as int,
        ),
{
    let out = auction(bids, bandwidth, min, chunk);
    let items = eligible(bids, bandwidth, min, chunk);
    let cap = (bandwidth / chunk) as int;
    lemma_lowered(bids, bandwidth, min, chunk, picked);
    let other = lowered(bids, bandwidth, min, chunk, picked);
    lemma_whole_chunks(chunks_of(items, other) as int, bandwidth, chunk);
    super::auction::law_auction_is_optimal(bids, bandwidth, min, chunk, other);
    lemma_total(out);
}

proof fn lemma_total(ws: Seq<Award>)
    ensures
        super::auction::total_weight(ws) == sum(
            |j: int| ws[j].bid.weight as int,
            ws.len() as int,
        ),
    decreases ws.len(),
{
    if ws.len() > 0 {
        let rest = ws.drop_first();
        lemma_total(rest);
        lemma_sum_shift(ws, ws.len() as int);
    }
}

proof fn lemma_sum_shift(ws: Seq<Award>, n: int)
    requires
        0 < n <= ws.len(),
    ensures
        sum(|j: int| ws[j].bid.weight as int, n) == ws[0].bid.weight + sum(
            |j: int| ws.drop_first()[j].bid.weight as int,
            n - 1,
        ),
    decreases n,
{
    let f = |j: int| ws[j].bid.weight as int;
    let g = |j: int| ws.drop_first()[j].bid.weight as int;
    if n == 1 {
        assert(sum(f, 0) == 0);
        assert(sum(g, 0) == 0);
    } else {
        lemma_sum_shift(ws, n - 1);
        assert(g(n - 2) == f(n - 1));
    }
}

/// A bandwidth of less than one chunk has no winners.
pub proof fn law_no_winners_in_less_than_a_chunk(
    bids: Seq<Bid>,
    bandwidth: u32,
    min: u32,
    chunk: u32,
)
    requires
        bandwidth < chunk,
    ensures
        auction(bids, bandwidth, min, chunk).len() == 0,
{
}

} // verus!
