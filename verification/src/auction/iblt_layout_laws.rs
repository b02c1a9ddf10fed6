//! Laws of the layout of a table: how many buckets it has, which cells an entry
//! goes to and what it changes there, and when vectors are not a table.

use vstd::prelude::*;

use crate::bytes::{
    be_nat, be_seq, le_nat, le_seq, lemma_le_nat_bound, lemma_le_seq_of_le_nat, lemma_pow256_values,
};
use crate::crypto::fields::{all_canonical, canonical};
use crate::crypto::hashing::sha256;

use super::iblt::{
    bucket, delta_for, empty_table, first_too_large, insert_refused, lemma_block, packed, unpacked,
    IbltError, Packed, Table,
};

verus! {

/// A row has the fewest buckets that are at least one and a half times as many
/// as the entries expected, and one at least.
pub proof fn law_buckets_per_row(n: u32)
    requires
        3 * n + 1 <= 2 * usize::MAX,
    ensures
        delta_for(n) >= 1,
        2 * delta_for(n) >= 3 * n,
        delta_for(n) > 1 ==> 2 * (delta_for(n) - 1) < 3 * n,
{
}

/// The bucket of a chunk in a row is the number that the first eight bytes of
/// the SHA-256 digest of the row, in four big-endian bytes, and the chunk
/// write, modulo the number of buckets.
pub proof fn law_buckets_come_from_digests(chunk: Seq<u8>, row: nat, delta: nat)
    requires
        delta > 0,
    ensures
        bucket(chunk, row, delta) == be_nat(sha256(be_seq(row, 4) + chunk).take(8)) % delta,
        bucket(chunk, row, delta) < delta,
{
}

/// An entry occupies exactly one cell in every row: the one of its bucket.
pub proof fn law_one_cell_in_every_row(e: Packed, row: int, delta: nat, ci: int)
    requires
        delta > 0,
        0 <= row,
        row * delta <= ci < row * delta + delta,
    ensures
        e.hits(ci, delta) <==> ci == row * delta + bucket(
            le_seq(e.key as nat, 7),
            row as nat,
            delta,
        ),
        e.cell(row, delta) == row * delta + bucket(le_seq(e.key as nat, 7), row as nat, delta),
{
    let d = delta as int;
    let r = ci - row * d;
    vstd::arithmetic::div_mod::lemma_fundamental_div_mod_converse(ci, d, row, r);
}

/// Inserting an entry raises the counter of each cell that it occupies by one
/// and adds its key and its values to the cell modulo p. Every other word, also
/// behind the last cell, and everything else about the table stays.
pub proof fn law_insertion_changes_its_cells(t: Table, e: Packed)
    requires
        t.delta > 0,
        e.values.len() == t.xi,
        t.counters_can_rise(),
    ensures
        ({
            let u = t.inserted(e);
            &&& u.estimated_elements == t.estimated_elements
            &&& u.gamma == t.gamma && u.delta == t.delta && u.xi == t.xi
            &&& u.counters.len() == t.counters.len()
            &&& u.keys.len() == t.keys.len()
            &&& u.values.len() == t.values.len()
            &&& forall|ci: int|
                0 <= ci < t.counters.len() ==> #[trigger] u.counters[ci] == t.counters[ci]
                    + if goes_to(t, e, ci) {
                    1int
                } else {
                    0
                }
            &&& forall|ci: int|
                0 <= ci < t.keys.len() ==> #[trigger] u.keys[ci] == if goes_to(t, e, ci) {
                    (t.keys[ci] + e.key) % 0x1eeed4e13a526bab
                } else {
                    t.keys[ci] as int
                }
            &&& forall|vi: int|
                0 <= vi < t.values.len() ==> #[trigger] u.values[vi] == if t.xi > 0 && goes_to(
                    t,
                    e,
                    vi / t.xi as int,
                ) {
                    (t.values[vi] + e.values[vi % t.xi as int]) % 0x1eeed4e13a526bab
                } else {
                    t.values[vi] as int
                }
        }),
{
    let u = t.inserted(e);
    let d = t.delta as int;
    assert forall|ci: int| 0 <= ci implies (#[trigger] goes_to(t, e, ci) <==> ci < t.cells()
        && e.hits(ci, t.delta as nat)) by {
        lemma_block(ci, d);
        if ci >= 0 {
            vstd::arithmetic::div_mod::lemma_div_pos_is_pos(ci, d);
        }
    }
    assert forall|vi: int| 0 <= vi < t.values.len() implies #[trigger] u.values[vi] == if t.xi > 0
        && goes_to(t, e, vi / t.xi as int) {
        (t.values[vi] + e.values[vi % t.xi as int]) % 0x1eeed4e13a526bab
    } else {
        t.values[vi] as int
    } by {
        if t.xi > 0 {
            vstd::arithmetic::div_mod::lemma_div_pos_is_pos(vi, t.xi as int);
        }
    }
}

/// The entry goes to cell `ci`: the cell is in one of the rows, and in that row
/// at the bucket of the entry's key.
pub open spec fn goes_to(t: Table, e: Packed, ci: int) -> bool {
    let row = ci / t.delta as int;
    &&& ci < t.gamma * t.delta
    &&& ci - row * t.delta == bucket(le_seq(e.key as nat, 7), row as nat, t.delta as nat)
}

/// A table is written as its counters, its keys and its values, in order.
pub proof fn law_tables_as_words(t: Table)
    ensures
        t.elements() == t.counters + t.keys + t.values,
        t.elements().len() == t.counters.len() + t.keys.len() + t.values.len(),
{
}

/// The entry of a key and of values holds the numbers that they write, least
/// significant byte first, and gives them back in seven bytes each.
pub proof fn law_entries_hold_numbers(key: Seq<u8>, values: Seq<Seq<u8>>)
    requires
        key.len() == 7,
        forall|i: int| 0 <= i < values.len() ==> (#[trigger] values[i]).len() == 7,
    ensures
        packed(key, values).key == le_nat(key),
        packed(key, values).values.len() == values.len(),
        forall|i: int|
            0 <= i < values.len() ==> #[trigger] packed(key, values).values[i] == le_nat(values[i]),
        unpacked(packed(key, values)).key == key,
        unpacked(packed(key, values)).values == values,
{
    let e = packed(key, values);
    lemma_pow256_values();
    lemma_le_nat_bound(key);
    lemma_le_seq_of_le_nat(key);
    assert forall|i: int| 0 <= i < values.len() implies #[trigger] e.values[i] == le_nat(values[i])
        && unpacked(e).values[i] == values[i] by {
        assert(values[i].len() == 7);
        lemma_le_nat_bound(values[i]);
        lemma_le_seq_of_le_nat(values[i]);
    }
    assert(unpacked(e).values =~= values);
}

/// Words are a table of the shape of `blank` exactly if `blank` is well formed,
/// there are as many as it has counters, keys and values together, and all are
/// reduced. They then are its counters, its keys and its values, in order.
pub proof fn law_words_are_a_table_only_if(blank: Table, words: Seq<u64>)
    ensures
        ({
            let r = blank.decoded(words);
            let n = 2 * blank.counters.len() + blank.values.len();
            let reduced = forall|i: int|
                0 <= i < words.len() ==> #[trigger] words[i] < 0x1eeed4e13a526bab;
            &&& r is Ok <==> blank.shape_ok() && words.len() == n && reduced
            &&& !blank.shape_ok() ==> r == Err::<Table, IbltError>(IbltError::InvalidShape)
            &&& blank.shape_ok() && words.len() != n ==> r == Err::<Table, IbltError>(
                IbltError::FieldElementCountMismatch {
                    expected: n as usize,
                    got: words.len() as usize,
                },
            )
            &&& blank.shape_ok() && words.len() == n && !reduced ==> r == Err::<Table, IbltError>(
                IbltError::NonCanonicalFieldElement,
            )
            &&& r matches Ok(t) ==> {
                &&& t.counters + t.keys + t.values == words
                &&& t.counters.len() == blank.counters.len()
                &&& t.keys.len() == blank.counters.len()
                &&& t.values.len() == blank.values.len()
                &&& t.estimated_elements == blank.estimated_elements
                &&& t.gamma == blank.gamma && t.delta == blank.delta && t.xi == blank.xi
                &&& t.elements() == words
            }
        }),
{
    let reduced = forall|i: int| 0 <= i < words.len() ==> #[trigger] words[i] < 0x1eeed4e13a526bab;
    if all_canonical(words) {
        assert forall|i: int| 0 <= i < words.len() implies #[trigger] words[i]
            < 0x1eeed4e13a526bab by {
            assert(canonical(words[i]));
        }
    }
    if blank.decoded(words) is Ok {
        let t = blank.decoded(words)->Ok_0;
        assert(t.counters + t.keys + t.values =~= words);
    }
}

/// A well-formed table has four rows of as many buckets as its size calls for,
/// a counter, a key and `xi` values for every cell, and no more words than can
/// be counted.
pub proof fn law_well_formed_tables(t: Table)
    ensures
        t.shape_ok() <==> {
            let cells = 4 * t.delta;
            &&& t.gamma == 4
            &&& t.delta == delta_for(t.estimated_elements)
            &&& t.counters.len() == cells
            &&& t.keys.len() == cells
            &&& t.values.len() == cells * t.xi
            &&& 2 * cells + t.values.len() <= usize::MAX
        },
{
    assert(t.gamma == 4 ==> t.cells() == 4 * t.delta);
}

/// A new table is well formed as far as it can be counted, and all its words are
/// zero.
pub proof fn law_new_tables_are_zero(n: u32, xi: usize)
    ensures
        ({
            let t = empty_table(n, xi);
            &&& t.estimated_elements == n
            &&& t.gamma == 4
            &&& t.xi == xi
            &&& t.counters.len() == 4 * delta_for(n)
            &&& t.keys.len() == 4 * delta_for(n)
            &&& t.values.len() == 4 * delta_for(n) * xi
            &&& forall|i: int| 0 <= i < t.elements().len() ==> #[trigger] t.elements()[i] == 0
        }),
{
}

proof fn lemma_too_large(values: Seq<Seq<u8>>)
    ensures
        first_too_large(values) is None <==> (forall|i: int|
            0 <= i < values.len() ==> (#[trigger] values[i]).len() <= 7),
        first_too_large(values) is Some ==> exists|j: int|
            0 <= j < values.len() && (#[trigger] values[j]).len() > 7 && (forall|i: int|
                0 <= i < j ==> (#[trigger] values[i]).len() <= 7) && first_too_large(values)
                == Some(
                IbltError::PayloadTooLarge { got: values[j].len() as usize, cap: 7 },
            ),
    decreases values.len(),
{
    if values.len() > 0 {
        let rest = values.drop_first();
        if values[0].len() <= 7 {
            lemma_too_large(rest);
            if first_too_large(rest) is None {
                assert forall|i: int| 0 <= i < values.len() implies (#[trigger] values[i]).len()
                    <= 7 by {
                    if i > 0 {
                        assert(rest[i - 1] == values[i]);
                    }
                }
            } else {
                let j = choose|j: int|
                    0 <= j < rest.len() && (#[trigger] rest[j]).len() > 7 && (forall|i: int|
                        0 <= i < j ==> (#[trigger] rest[i]).len() <= 7) && first_too_large(rest)
                        == Some(
                        IbltError::PayloadTooLarge { got: rest[j].len() as usize, cap: 7 },
                    );
                assert(values[j + 1] == rest[j]);
                assert forall|i: int| 0 <= i < j + 1 implies (#[trigger] values[i]).len() <= 7 by {
                    if i > 0 {
                        assert(rest[i - 1] == values[i]);
                    }
                }
            }
        } else {
            assert(values[0].len() > 7);
        }
    }
}

/// Values are inserted exactly if there are as many as a cell has room for and
/// none is longer than seven bytes; otherwise the number, or the first one that
/// is too long, is reported.
pub proof fn law_insertions_are_refused_only_if(t: Table, values: Seq<Seq<u8>>)
    ensures
        insert_refused(t, values) is None <==> values.len() == t.xi && (forall|i: int|
            0 <= i < values.len() ==> (#[trigger] values[i]).len() <= 7),
        values.len() != t.xi ==> insert_refused(t, values) == Some(
            IbltError::PayloadArity { expected: t.xi, got: values.len() as usize },
        ),
        values.len() == t.xi && insert_refused(t, values) is Some ==> exists|j: int|
            0 <= j < values.len() && (#[trigger] values[j]).len() > 7 && (forall|i: int|
                0 <= i < j ==> (#[trigger] values[i]).len() <= 7) && insert_refused(t, values)
                == Some(
                IbltError::PayloadTooLarge { got: values[j].len() as usize, cap: 7 },
            ),
{
    lemma_too_large(values);
}

/// A table that is not well formed, or has a word that is not reduced, is
/// refused before anything is peeled off it.
pub proof fn law_bad_tables_are_refused(t: Table)
    ensures
        !t.shape_ok() ==> t.recovered() == Err::<Seq<Packed>, IbltError>(IbltError::InvalidShape),
        t.shape_ok() && (exists|i: int|
            0 <= i < t.elements().len() && #[trigger] t.elements()[i] >= 0x1eeed4e13a526bab)
            ==> t.recovered() == Err::<Seq<Packed>, IbltError>(
            IbltError::NonCanonicalFieldElement,
        ),
{
    if t.shape_ok() && t.is_canonical() {
        assert forall|i: int| 0 <= i < t.elements().len() implies #[trigger] t.elements()[i]
            < 0x1eeed4e13a526bab by {
            let n = t.counters.len() as int;
            if i < n {
                assert(canonical(t.counters[i]));
            } else if i < 2 * n {
                assert(canonical(t.keys[i - n]));
            } else {
                assert(canonical(t.values[i - 2 * n]));
            }
        }
    }
}

} // verus!
