//! Laws that span the encoders, the table and the field-additive sum: what
//! clients put in comes out of the aggregate.

use vstd::prelude::*;

use crate::auction::iblt::{
    delta_for, packed, unpacked, IbltError, Packed, Table, IBLT_GAMMA, KEY_BYTES,
};
use crate::auction::iblt_laws::{
    law_elements_round_trip, law_few_entries_are_peelable, law_insert_adds_entry,
    law_new_table_is_empty, law_recovery_of_held, law_tables_add_up, lemma_holding_is_canonical,
    peelable,
};
use crate::bytes::{
    be_seq, lemma_be_round_trip, lemma_le_nat_bound, lemma_le_seq_of_le_nat, lemma_pow256_values,
};
use crate::crypto::fields::{vzero, P, PACK_LIMIT};
use crate::primitives::field_round::add_all;
use crate::sorting::lemma_images;

use super::iblt_msg::{
    framed, joined, payload_values, payloads_of, sevens, unframed, usable, xi_for, IbltMsgError,
    IbltMsgParams,
};

verus! {

/// The entries of several tables one after the other.
pub open spec fn all_entries(lists: Seq<Seq<Packed>>) -> Seq<Packed>
    decreases lists.len(),
{
    if lists.len() == 0 {
        Seq::empty()
    } else {
        all_entries(lists.drop_last()) + lists.last()
    }
}

/// The elements of several tables.
pub open spec fn all_elements(tables: Seq<Table>) -> Seq<Seq<u64>> {
    Seq::new(tables.len(), |c: int| tables[c].elements())
}

/// `t` has the shape of `blank` and holds `es`.
pub open spec fn same_shape_holding(t: Table, blank: Table, es: Seq<Packed>) -> bool {
    &&& t.shape_ok()
    &&& t.estimated_elements == blank.estimated_elements
    &&& t.xi == blank.xi
    &&& t.holds(es)
}

/// Any number of tables add up: the sum of their elements decodes to a table
/// that holds the entries of all of them.
pub proof fn law_many_tables_add_up(
    blank: Table,
    tables: Seq<Table>,
    lists: Seq<Seq<Packed>>,
)
    requires
        blank.shape_ok(),
        blank.holds(Seq::empty()),
        blank.is_zero(),
        tables.len() == lists.len(),
        forall|c: int|
            0 <= c < tables.len() ==> #[trigger] same_shape_holding(tables[c], blank, lists[c]),
        all_entries(lists).len() < P,
    ensures
        ({
            let total = add_all(vzero(blank.elements().len()), all_elements(tables));
            &&& blank.decoded(total) is Ok
            &&& same_shape_holding(blank.decoded(total)->Ok_0, blank, all_entries(lists))
            &&& blank.decoded(total)->Ok_0.elements() == total
        }),
    decreases tables.len(),
{
    let zero = vzero(blank.elements().len());
    let total = add_all(zero, all_elements(tables));
    if tables.len() == 0 {
        assert(blank.elements() =~= zero);
        lemma_holding_is_canonical(blank, Seq::empty());
        law_elements_round_trip(blank, blank);
    } else {
        let init = tables.drop_last();
        let init_lists = lists.drop_last();
        assert forall|c: int| 0 <= c < init.len() implies #[trigger] same_shape_holding(
            init[c],
            blank,
            init_lists[c],
        ) by {
            assert(same_shape_holding(tables[c], blank, lists[c]));
        }
        law_many_tables_add_up(blank, init, init_lists);
        let before = blank.decoded(add_all(zero, all_elements(init)))->Ok_0;
        let n = tables.len() - 1;
        assert(same_shape_holding(tables[n], blank, lists[n]));
        law_tables_add_up(before, tables[n], blank, all_entries(init_lists), lists[n]);
        assert(all_elements(tables).drop_last() =~= all_elements(init));
        let t = blank.decoded(total)->Ok_0;
        assert(t.elements() =~= total);
    }
}

// ---------------------------------------------------------------------------
// Payloads
// ---------------------------------------------------------------------------

/// Cutting a byte string into sevens and joining them gives it back.
proof fn lemma_join_sevens(b: Seq<u8>, n: int)
    requires
        0 <= n,
        7 * n <= b.len(),
    ensures
        joined(sevens(b).take(n)) == b.take(7 * n),
    decreases n,
{
    let vs = sevens(b);
    if n == 0 {
        assert(vs.take(0) =~= Seq::empty());
        assert(b.take(0) =~= Seq::empty());
    } else {
        lemma_join_sevens(b, n - 1);
        assert(vs.take(n).drop_last() =~= vs.take(n - 1));
        assert(b.take(7 * (n - 1)) + b.subrange(7 * (n - 1), 7 * (n - 1) + 7) =~= b.take(7 * n));
    }
}

/// A payload survives framing, packing, unpacking and unframing.
pub proof fn law_payload_round_trip(payload: Seq<u8>, key: Seq<u8>, max: nat)
    requires
        payload.len() <= usable(max),
        payload.len() < 0x1_0000_0000,
        key.len() == KEY_BYTES,
    ensures
        packed(key, payload_values(payload, max)).fits(xi_for(max)),
        unframed(joined(unpacked(packed(key, payload_values(payload, max))).values), max) == Ok::<
            Seq<u8>,
            IbltMsgError,
        >(payload),
{
    let n = 7 * xi_for(max);
    let frame = framed(payload, n);
    let vs = payload_values(payload, max);
    let e = packed(key, vs);
    lemma_pow256_values();
    lemma_be_round_trip(payload.len(), 4);
    lemma_le_nat_bound(key);
    assert(frame.len() == n);
    assert(vs.len() == xi_for(max));
    assert forall|i: int| 0 <= i < vs.len() implies #[trigger] e.values[i] < PACK_LIMIT
        && unpacked(e).values[i] == vs[i] by {
        assert(vs[i].len() == 7);
        lemma_le_nat_bound(vs[i]);
        lemma_le_seq_of_le_nat(vs[i]);
    }
    assert(unpacked(e).values =~= vs);
    lemma_join_sevens(frame, xi_for(max) as int);
    assert(vs.take(xi_for(max) as int) =~= vs);
    assert(frame.take(n as int) =~= frame);
    assert(frame.take(4) =~= be_seq(payload.len(), 4));
    assert(frame.subrange(4, 4 + payload.len() as int) =~= payload);
}

/// Entries that all unframe give their payloads in order.
proof fn lemma_all_unframe(es: Seq<Packed>, max: nat, f: spec_fn(Packed) -> Seq<u8>)
    requires
        forall|i: int|
            0 <= i < es.len() ==> unframed(joined(unpacked(#[trigger] es[i]).values), max) == Ok::<
                Seq<u8>,
                IbltMsgError,
            >(f(es[i])),
    ensures
        payloads_of(es, max) == Ok::<Seq<Seq<u8>>, IbltMsgError>(es.map_values(f)),
    decreases es.len(),
{
    if es.len() > 0 {
        let init = es.drop_last();
        assert forall|i: int| 0 <= i < init.len() implies unframed(
            joined(unpacked(#[trigger] init[i]).values),
            max,
        ) == Ok::<Seq<u8>, IbltMsgError>(f(init[i])) by {
            assert(init[i] == es[i]);
        }
        lemma_all_unframe(init, max, f);
        assert(es.last() == es[es.len() - 1]);
        assert(init.map_values(f).push(f(es.last())) =~= es.map_values(f));
    } else {
        assert(es.map_values(f) =~= Seq::empty());
    }
}

/// A payload and the key that it rides under.
pub struct Keyed {
    pub key: Seq<u8>,
    pub payload: Seq<u8>,
}

/// The payload fits its frame, and the key is a key.
pub open spec fn can_ride(k: Keyed, max: nat) -> bool {
    &&& k.key.len() == KEY_BYTES
    &&& k.payload.len() <= usable(max)
    &&& k.payload.len() < 0x1_0000_0000
}

/// The entries of payloads.
pub open spec fn payload_entries(ks: Seq<Keyed>, max: nat) -> Seq<Packed> {
    Seq::new(ks.len(), |i: int| packed(ks[i].key, payload_values(ks[i].payload, max)))
}

/// The payloads themselves.
pub open spec fn bare_payloads(ks: Seq<Keyed>) -> Seq<Seq<u8>> {
    Seq::new(ks.len(), |i: int| ks[i].payload)
}

/// What payloads go in, come out: a table that holds payloads gives them back
/// in some order if their entries can be peeled, and reports a stall if not.
pub proof fn law_payloads_come_back(t: Table, ks: Seq<Keyed>, max: nat)
    requires
        t.shape_ok(),
        t.xi == xi_for(max),
        ks.len() < P,
        forall|i: int| 0 <= i < ks.len() ==> can_ride(#[trigger] ks[i], max),
        t.holds(payload_entries(ks, max)),
    ensures
        match t.recovered() {
            Ok(es) => {
                &&& peelable(payload_entries(ks, max), t.gamma as nat, t.delta as nat)
                &&& payloads_of(es, max) is Ok
                &&& payloads_of(es, max)->Ok_0.to_multiset() == bare_payloads(ks).to_multiset()
            },
            Err(e) => {
                &&& !peelable(payload_entries(ks, max), t.gamma as nat, t.delta as nat)
                &&& e is PeelStalled
            },
        },
{
    broadcast use vstd::seq_lib::group_to_multiset_ensures;

    let entries = payload_entries(ks, max);
    let f = |e: Packed| unframed(joined(unpacked(e).values), max)->Ok_0;
    assert forall|i: int| 0 <= i < entries.len() implies (#[trigger] entries[i]).fits(t.xi as nat)
        && unframed(joined(unpacked(entries[i]).values), max) == Ok::<Seq<u8>, IbltMsgError>(
        ks[i].payload,
    ) by {
        assert(can_ride(ks[i], max));
        law_payload_round_trip(ks[i].payload, ks[i].key, max);
    }
    law_recovery_of_held(t, entries);
    if t.recovered() is Ok {
        let es = t.recovered()->Ok_0;
        assert forall|i: int| 0 <= i < es.len() implies unframed(
            joined(unpacked(#[trigger] es[i]).values),
            max,
        ) == Ok::<Seq<u8>, IbltMsgError>(f(es[i])) by {
            assert(es.contains(es[i]));
            assert(es.to_multiset().count(es[i]) > 0);
            assert(entries.contains(es[i]));
            let j = choose|j: int| 0 <= j < entries.len() && entries[j] == es[i];
            assert(entries[j].fits(t.xi as nat));
        }
        lemma_all_unframe(es, max, f);
        lemma_images(es, entries, f);
        assert(entries.map_values(f) =~= bare_payloads(ks)) by {
            assert forall|i: int| 0 <= i < entries.len() implies f(entries[i])
                == ks[i].payload by {
                assert(entries[i].fits(t.xi as nat));
            }
        }
    }
}

/// The entries of payloads can be peeled out of a table for these parameters.
pub open spec fn payloads_peelable(params: IbltMsgParams, ks: Seq<Keyed>) -> bool {
    peelable(
        payload_entries(ks, params.max_payload_bytes as nat),
        IBLT_GAMMA as nat,
        delta_for(params.estimated_messages),
    )
}

/// What one client puts into a round: nothing, or a payload under a key.
pub open spec fn contribution(params: IbltMsgParams, k: Option<Keyed>) -> Table {
    match k {
        None => params.blank(),
        Some(k) => params.loaded(k.payload, k.key),
    }
}

/// The payloads among contributions, with their keys.
pub open spec fn present(ks: Seq<Option<Keyed>>) -> Seq<Keyed>
    decreases ks.len(),
{
    if ks.len() == 0 {
        Seq::empty()
    } else {
        match ks.last() {
            None => present(ks.drop_last()),
            Some(k) => present(ks.drop_last()).push(k),
        }
    }
}

/// The contributions of clients as vectors.
pub open spec fn contributions(params: IbltMsgParams, ks: Seq<Option<Keyed>>) -> Seq<Seq<u64>> {
    Seq::new(ks.len(), |c: int| contribution(params, ks[c]).elements())
}

spec fn entry_list(k: Option<Keyed>, max: nat) -> Seq<Packed> {
    match k {
        None => Seq::empty(),
        Some(k) => seq![packed(k.key, payload_values(k.payload, max))],
    }
}

proof fn lemma_entry_lists(ks: Seq<Option<Keyed>>, max: nat)
    ensures
        all_entries(Seq::new(ks.len(), |c: int| entry_list(ks[c], max))) == payload_entries(
            present(ks),
            max,
        ),
        present(ks).len() <= ks.len(),
    decreases ks.len(),
{
    let lists = Seq::new(ks.len(), |c: int| entry_list(ks[c], max));
    if ks.len() > 0 {
        lemma_entry_lists(ks.drop_last(), max);
        assert(lists.drop_last() =~= Seq::new(
            ks.drop_last().len(),
            |c: int| entry_list(ks.drop_last()[c], max),
        ));
        assert(all_entries(lists) =~= payload_entries(present(ks), max));
    } else {
        assert(all_entries(lists) =~= payload_entries(present(ks), max));
    }
}

proof fn lemma_present_can_ride(ks: Seq<Option<Keyed>>, max: nat)
    requires
        forall|c: int|
            0 <= c < ks.len() ==> (#[trigger] ks[c] matches Some(k) ==> can_ride(k, max)),
    ensures
        forall|i: int| 0 <= i < present(ks).len() ==> can_ride(#[trigger] present(ks)[i], max),
    decreases ks.len(),
{
    if ks.len() > 0 {
        let init = ks.drop_last();
        assert forall|c: int| 0 <= c < init.len() implies (#[trigger] init[c] matches Some(k)
            ==> can_ride(k, max)) by {
            assert(init[c] == ks[c]);
        }
        lemma_present_can_ride(init, max);
        assert(ks.last() == ks[ks.len() - 1]);
        let all = present(ks);
        assert forall|i: int| 0 <= i < all.len() implies can_ride(#[trigger] all[i], max) by {
            if i < present(init).len() {
                assert(all[i] == present(init)[i]);
            } else {
                assert(ks[ks.len() - 1] == Some(all[i]));
            }
        }
    }
}

/// The sum of the contributions of a round decodes to the payloads in it, in
/// some order, if their entries can be peeled, as those of one payload always
/// can, and reports a stall if not.
pub proof fn law_summed_contributions_decode(params: IbltMsgParams, ks: Seq<Option<Keyed>>)
    requires
        params.ok(),
        ks.len() < P,
        forall|c: int|
            0 <= c < ks.len() ==> (#[trigger] ks[c] matches Some(k) ==> can_ride(
                k,
                params.max_payload_bytes as nat,
            )),
    ensures
        match params.payloads(
            add_all(vzero(params.blank().elements().len()), contributions(params, ks)),
        ) {
            Ok(out) => {
                &&& payloads_peelable(params, present(ks))
                &&& out.to_multiset() == bare_payloads(present(ks)).to_multiset()
            },
            Err(e) => {
                &&& !payloads_peelable(params, present(ks))
                &&& e == IbltMsgError::Iblt(IbltError::PeelStalled)
            },
        },
        present(ks).len() <= 1 ==> payloads_peelable(params, present(ks)),
{
    let max = params.max_payload_bytes as nat;
    let blank = params.blank();
    let tables = Seq::new(ks.len(), |c: int| contribution(params, ks[c]));
    let lists = Seq::new(ks.len(), |c: int| entry_list(ks[c], max));
    crate::auction::iblt::lemma_table_fits(params.estimated_messages, xi_for(max) as usize);
    law_new_table_is_empty(params.estimated_messages, xi_for(max) as usize);
    assert forall|c: int| 0 <= c < tables.len() implies #[trigger] same_shape_holding(
        tables[c],
        blank,
        lists[c],
    ) by {
        match ks[c] {
            None => {},
            Some(k) => {
                assert(can_ride(k, max));
                let e = packed(k.key, payload_values(k.payload, max));
                law_payload_round_trip(k.payload, k.key, max);
                law_insert_adds_entry(blank, Seq::empty(), e);
                assert(Seq::<Packed>::empty().push(e) =~= lists[c]);
            },
        }
    }
    lemma_entry_lists(ks, max);
    lemma_present_can_ride(ks, max);
    law_many_tables_add_up(blank, tables, lists);
    assert(all_elements(tables) =~= contributions(params, ks));
    let total = add_all(vzero(blank.elements().len()), contributions(params, ks));
    let t = blank.decoded(total)->Ok_0;
    law_payloads_come_back(t, present(ks), max);
    law_few_entries_are_peelable(
        payload_entries(present(ks), max),
        IBLT_GAMMA as nat,
        delta_for(params.estimated_messages),
    );
}

} // verus!
