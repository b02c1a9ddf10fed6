//! Multi-value Invertible Bloom Lookup Table over `F_p` (61-bit prime, see
//! [`crate::crypto::fields`]).
//!
//! Uniform `γ × δ` layout (γ=4 rows, δ=max(1, ⌈1.5·n⌉) buckets per row, where
//! `n` is the expected element count). Each cell stores
//! `(counter, key, V_0 … V_{ξ-1})`:
//!
//! - **counter**: hit count. `counter == 1` marks a *pure* cell — decoding is
//!   driven by repeatedly peeling pure cells.
//! - **key**: one field element identifying the entry. Bucket placement is
//!   `SHA-256(row_be || key_bytes)[0..8] mod δ`. On peel, the key is
//!   recovered from the pure cell and used to recompute bucket positions so
//!   the entry can be subtracted from its other γ−1 rows.
//! - **V**: `ξ` extra field elements carried alongside. Bucket placement is
//!   driven by the key alone; V slots ride atomically with the key, so
//!   peeling recovers `(key, V_0..V_{ξ-1})` in one go.
//!
//! All cell components are `u64` field elements in `F_p` and accumulate via
//! modular addition, so an IBLT aggregates across clients using the
//! field-additive blinded-broadcast primitive.
//!
//! The contracts speak of the table as a [`Table`]. What a table holds after a
//! sequence of insertions is stated by [`Table::holds`]; the laws about it
//! stand in [`crate::auction::iblt_laws`].

use vstd::prelude::*;

use crate::bytes::{
    append_slice, be_nat, be_seq, le_nat, le_seq, read_be, to_vec, to_vecs, write_be,
};
use crate::crypto::fields::{
    add_mod, all_canonical, fadd, from_le_bytes_packed, fsub, is_all_canonical, sub_mod,
    to_le_bytes_packed, vzero, zeros, P, PACK_BYTES, PACK_LIMIT,
};
use crate::crypto::hashing::{sha256, sha256_digest};
use crate::sorting::views;

verus! {

/// Number of rows in the IBLT.
pub const IBLT_GAMMA: usize = 4;

/// Buckets per row = `max(1, ⌈IBLT_LOAD_NUMERATOR · n / IBLT_LOAD_DENOMINATOR⌉)`
/// for `n` expected entries. Total cells = `IBLT_GAMMA · buckets_per_row`.
pub const IBLT_LOAD_NUMERATOR: u64 = 3;

/// See [`IBLT_LOAD_NUMERATOR`].
pub const IBLT_LOAD_DENOMINATOR: u64 = 2;

/// Bytes per IBLT key (one field element packed).
pub const KEY_BYTES: usize = PACK_BYTES;

// ---------------------------------------------------------------------------
// Model
// ---------------------------------------------------------------------------

/// Buckets per row for `n` expected entries: `⌈1.5·n⌉`, at least one, and no
/// more than a `usize` counts.
pub open spec fn delta_for(n: u32) -> nat {
    let wanted = if n == 0 {
        1
    } else {
        (3 * n + 1) / 2
    };
    if wanted > usize::MAX {
        usize::MAX as nat
    } else {
        wanted as nat
    }
}

/// Bucket of `chunk` in row `row`: `SHA-256(row_be || chunk)[0..8] mod δ`.
pub open spec fn bucket(chunk: Seq<u8>, row: nat, delta: nat) -> nat {
    be_nat(sha256(be_seq(row, 4) + chunk).subrange(0, 8)) % delta
}

/// An entry as the table stores it: key and values as field elements.
#[verifier::ext_equal]
pub struct Packed {
    pub key: u64,
    pub values: Seq<u64>,
}

impl Packed {
    /// Key and values fit in seven bytes each, and there are `xi` values.
    pub open spec fn fits(self, xi: nat) -> bool {
        &&& self.key < PACK_LIMIT
        &&& self.values.len() == xi
        &&& forall|v: int| 0 <= v < xi ==> #[trigger] self.values[v] < PACK_LIMIT
    }

    /// Component `v` of the entry; the key counts as component `-1`.
    pub open spec fn part(self, v: int) -> u64 {
        if v < 0 {
            self.key
        } else {
            self.values[v]
        }
    }

    /// The cell that the entry occupies in row `row`.
    pub open spec fn cell(self, row: int, delta: nat) -> int {
        row * delta + bucket(le_seq(self.key as nat, KEY_BYTES as nat), row as nat, delta)
    }

    /// The entry occupies cell `ci`.
    pub open spec fn hits(self, ci: int, delta: nat) -> bool {
        bucket(le_seq(self.key as nat, KEY_BYTES as nat), (ci / delta as int) as nat, delta) == ci
            % delta as int
    }
}

/// The entry with byte-string key `key` and byte-string values `values`.
pub open spec fn packed(key: Seq<u8>, values: Seq<Seq<u8>>) -> Packed {
    Packed {
        key: le_nat(key) as u64,
        values: Seq::new(values.len(), |i: int| le_nat(values[i]) as u64),
    }
}

/// A recovered entry: key and values as byte strings.
#[verifier::ext_equal]
pub struct Entry {
    pub key: Seq<u8>,
    pub values: Seq<Seq<u8>>,
}

/// The seven-byte form of a stored entry.
pub open spec fn unpacked(e: Packed) -> Entry {
    Entry {
        key: le_seq(e.key as nat, KEY_BYTES as nat),
        values: Seq::new(
            e.values.len(),
            |i: int| le_seq(e.values[i] as nat, PACK_BYTES as nat),
        ),
    }
}

/// The seven-byte forms of stored entries.
pub open spec fn unpack_all(es: Seq<Packed>) -> Seq<Entry> {
    Seq::new(es.len(), |i: int| unpacked(es[i]))
}

/// How many of `es` occupy cell `ci`.
pub open spec fn hit_count(es: Seq<Packed>, ci: int, delta: nat) -> nat
    decreases es.len(),
{
    if es.len() == 0 {
        0
    } else {
        hit_count(es.drop_last(), ci, delta) + if es.last().hits(ci, delta) {
            1nat
        } else {
            0nat
        }
    }
}

/// The sum of component `v` over those of `es` that occupy cell `ci`.
pub open spec fn hit_sum(es: Seq<Packed>, ci: int, v: int, delta: nat) -> nat
    decreases es.len(),
{
    if es.len() == 0 {
        0
    } else {
        hit_sum(es.drop_last(), ci, v, delta) + if es.last().hits(ci, delta) {
            es.last().part(v) as nat
        } else {
            0nat
        }
    }
}

/// Contents of an IBLT.
#[verifier::ext_equal]
pub struct Table {
    pub estimated_elements: u32,
    pub gamma: usize,
    pub delta: usize,
    pub xi: usize,
    pub counters: Seq<u64>,
    pub keys: Seq<u64>,
    pub values: Seq<u64>,
}

impl Table {
    pub open spec fn cells(self) -> nat {
        self.gamma as nat * self.delta as nat
    }

    /// The vectors have the lengths that `gamma`, `delta` and `xi` call for.
    pub open spec fn laid_out(self) -> bool {
        &&& self.delta > 0
        &&& self.counters.len() == self.cells()
        &&& self.keys.len() == self.cells()
        &&& self.values.len() == self.cells() * self.xi as nat
    }

    /// The layout is the one that [`IbltVector::new_with_xi`] gives a table, and
    /// its length as a vector of field elements fits in a `usize`.
    pub open spec fn shape_ok(self) -> bool {
        &&& self.gamma == IBLT_GAMMA
        &&& self.delta == delta_for(self.estimated_elements)
        &&& self.counters.len() == self.cells()
        &&& self.keys.len() == self.cells()
        &&& self.values.len() == self.cells() * self.xi as nat
        &&& 2 * self.cells() + self.values.len() <= usize::MAX
    }

    /// Every component is a canonical field element.
    pub open spec fn is_canonical(self) -> bool {
        all_canonical(self.counters) && all_canonical(self.keys) && all_canonical(self.values)
    }

    /// Cell `ci` lies inside the vectors, and its counter is not at its maximum.
    pub open spec fn has_room_at(self, ci: int) -> bool {
        &&& ci < self.counters.len()
        &&& ci < self.keys.len()
        &&& self.xi > 0 ==> ci * self.xi + self.xi <= self.values.len()
        &&& self.counters[ci] < u64::MAX
    }

    /// Every cell that `e` goes to has room for it.
    pub open spec fn has_room(self, e: Packed) -> bool {
        &&& self.gamma > 0 ==> self.delta > 0
        &&& forall|row: int|
            0 <= row < self.gamma ==> self.has_room_at(#[trigger] e.cell(row, self.delta as nat))
    }

    /// No counter is at its maximum.
    pub open spec fn counters_can_rise(self) -> bool {
        forall|i: int| 0 <= i < self.counters.len() ==> self.counters[i] < u64::MAX
    }

    /// Every component is zero.
    pub open spec fn is_zero(self) -> bool {
        &&& forall|i: int| 0 <= i < self.counters.len() ==> self.counters[i] == 0
        &&& forall|i: int| 0 <= i < self.keys.len() ==> self.keys[i] == 0
        &&& forall|i: int| 0 <= i < self.values.len() ==> self.values[i] == 0
    }

    /// The table holds exactly the entries `es`: each cell counts the entries
    /// that occupy it and carries the sums mod p of their keys and values.
    pub open spec fn holds(self, es: Seq<Packed>) -> bool {
        &&& self.laid_out()
        &&& forall|ci: int|
            0 <= ci < self.cells() ==> #[trigger] self.counters[ci] == hit_count(
                es,
                ci,
                self.delta as nat,
            )
        &&& forall|ci: int|
            0 <= ci < self.cells() ==> #[trigger] self.keys[ci] == hit_sum(
                es,
                ci,
                -1,
                self.delta as nat,
            ) % (P as nat)
        &&& forall|vi: int|
            0 <= vi < self.values.len() ==> #[trigger] self.values[vi] == hit_sum(
                es,
                vi / self.xi as int,
                vi % self.xi as int,
                self.delta as nat,
            ) % (P as nat)
    }

    /// The table after `e` has been added to every cell that it occupies. What
    /// the vectors hold behind the last cell is left alone.
    pub open spec fn inserted(self, e: Packed) -> Table {
        Table {
            counters: Seq::new(
                self.counters.len(),
                |ci: int|
                    if ci < self.cells() && e.hits(ci, self.delta as nat) {
                        (self.counters[ci] + 1) as u64
                    } else {
                        self.counters[ci]
                    },
            ),
            keys: Seq::new(
                self.keys.len(),
                |ci: int|
                    if ci < self.cells() && e.hits(ci, self.delta as nat) {
                        fadd(self.keys[ci], e.key)
                    } else {
                        self.keys[ci]
                    },
            ),
            values: Seq::new(
                self.values.len(),
                |vi: int|
                    if self.xi > 0 && (vi / self.xi as int) < self.cells() && e.hits(
                        vi / self.xi as int,
                        self.delta as nat,
                    ) {
                        fadd(self.values[vi], e.values[vi % self.xi as int])
                    } else {
                        self.values[vi]
                    },
            ),
            ..self
        }
    }

    /// The table after `e` has been taken out of every cell that it occupies.
    pub open spec fn removed(self, e: Packed) -> Table {
        Table {
            counters: Seq::new(
                self.counters.len(),
                |ci: int|
                    if e.hits(ci, self.delta as nat) && self.counters[ci] > 0 {
                        (self.counters[ci] - 1) as u64
                    } else {
                        self.counters[ci]
                    },
            ),
            keys: Seq::new(
                self.keys.len(),
                |ci: int|
                    if e.hits(ci, self.delta as nat) {
                        fsub(self.keys[ci], e.key)
                    } else {
                        self.keys[ci]
                    },
            ),
            values: Seq::new(
                self.values.len(),
                |vi: int|
                    if e.hits(vi / self.xi as int, self.delta as nat) {
                        fsub(self.values[vi], e.values[vi % self.xi as int])
                    } else {
                        self.values[vi]
                    },
            ),
            ..self
        }
    }

    /// The one entry of a pure cell.
    pub open spec fn entry_at(self, ci: int) -> Packed {
        Packed {
            key: self.keys[ci],
            values: Seq::new(self.xi as nat, |v: int| self.values[ci * self.xi + v]),
        }
    }

    /// The pure cells among the first `n`, in order.
    pub open spec fn pure_cells(self, n: int) -> Seq<int>
        decreases n,
    {
        if n <= 0 {
            Seq::empty()
        } else if self.counters[n - 1] == 1 {
            self.pure_cells(n - 1).push(n - 1)
        } else {
            self.pure_cells(n - 1)
        }
    }

    /// The pure cells among those that `e` occupies in the first `rows` rows,
    /// in row order.
    pub open spec fn pure_cells_of(self, e: Packed, rows: int) -> Seq<int>
        decreases rows,
    {
        if rows <= 0 {
            Seq::empty()
        } else {
            let ci = e.cell(rows - 1, self.delta as nat);
            if self.counters[ci] == 1 {
                self.pure_cells_of(e, rows - 1).push(ci)
            } else {
                self.pure_cells_of(e, rows - 1)
            }
        }
    }

    /// Some value of the cell does not fit in seven bytes.
    pub open spec fn has_wide_value(self, ci: int) -> bool {
        exists|v: int|
            0 <= v < self.xi && #[trigger] self.entry_at(ci).values[v] >= PACK_LIMIT
    }

    /// Some cell that `e` occupies has count zero.
    pub open spec fn misses(self, e: Packed) -> bool {
        exists|row: int|
            0 <= row < self.gamma && self.counters[#[trigger] e.cell(row, self.delta as nat)] == 0
    }

    /// Peel the cells of `queue` in order. A cell that is not pure when its
    /// turn comes, or whose key does not hash to it, is passed over. A peeled
    /// entry leaves the table and joins `out`; the cells that it makes pure
    /// join the queue. An empty queue must leave a table of zeros.
    pub open spec fn peel(self, queue: Seq<int>, out: Seq<Packed>) -> Result<
        Seq<Packed>,
        IbltError,
    >
        decreases total(self.counters), queue.len(),
    {
        if queue.len() == 0 {
            if self.is_zero() {
                Ok(out)
            } else {
                Err(IbltError::PeelStalled)
            }
        } else {
            let ci = queue[0];
            let rest = queue.drop_first();
            let e = self.entry_at(ci);
            if !(0 <= ci < self.counters.len()) || self.counters[ci] != 1 {
                self.peel(rest, out)
            } else if e.key >= PACK_LIMIT {
                Err(IbltError::InvalidPackedElement)
            } else if !e.hits(ci, self.delta as nat) {
                self.peel(rest, out)
            } else if self.has_wide_value(ci) {
                Err(IbltError::InvalidPackedElement)
            } else if self.misses(e) {
                Err(IbltError::UnexpectedZeroCounter)
            } else {
                proof {
                    lemma_total_drops(self.removed(e).counters, self.counters, ci);
                }
                let left = self.removed(e);
                left.peel(rest + left.pure_cells_of(e, self.gamma as int), out.push(e))
            }
        }
    }

    /// What [`IbltVector::recover`] makes of the table.
    pub open spec fn recovered(self) -> Result<Seq<Packed>, IbltError> {
        if !self.shape_ok() {
            Err(IbltError::InvalidShape)
        } else if !self.is_canonical() {
            Err(IbltError::NonCanonicalFieldElement)
        } else {
            self.peel(self.pure_cells(self.cells() as int), Seq::empty())
        }
    }

    /// The table as one vector: counters, keys, values.
    pub open spec fn elements(self) -> Seq<u64> {
        self.counters + self.keys + self.values
    }

    /// What [`IbltVector::decode_from_elements`] makes of `elements`.
    pub open spec fn decoded(self, elements: Seq<u64>) -> Result<Table, IbltError> {
        let n = self.counters.len() as int;
        let expected = 2 * n + self.values.len();
        if !self.shape_ok() {
            Err(IbltError::InvalidShape)
        } else if elements.len() != expected {
            Err(
                IbltError::FieldElementCountMismatch {
                    expected: expected as usize,
                    got: elements.len() as usize,
                },
            )
        } else if !all_canonical(elements) {
            Err(IbltError::NonCanonicalFieldElement)
        } else {
            Ok(
                Table {
                    counters: elements.subrange(0, n),
                    keys: elements.subrange(n, 2 * n),
                    values: elements.subrange(2 * n, elements.len() as int),
                    ..self
                },
            )
        }
    }
}

/// The length of a table as a vector of field elements fits in a `usize`.
pub open spec fn table_fits(n: u32, xi: nat) -> bool {
    IBLT_GAMMA * delta_for(n) * (2 + xi) <= usize::MAX
}

/// The empty table for `n` expected entries with `xi` values each.
pub open spec fn empty_table(n: u32, xi: usize) -> Table {
    let cells = IBLT_GAMMA as nat * delta_for(n);
    Table {
        estimated_elements: n,
        gamma: IBLT_GAMMA,
        delta: delta_for(n) as usize,
        xi,
        counters: vzero(cells),
        keys: vzero(cells),
        values: vzero(cells * xi as nat),
    }
}

/// Why an insertion of `values` is refused, if it is.
pub open spec fn insert_refused(t: Table, values: Seq<Seq<u8>>) -> Option<IbltError> {
    if values.len() != t.xi {
        Some(IbltError::PayloadArity { expected: t.xi, got: values.len() as usize })
    } else {
        first_too_large(values)
    }
}

/// The refusal of the first value longer than `PACK_BYTES`.
pub open spec fn first_too_large(values: Seq<Seq<u8>>) -> Option<IbltError>
    decreases values.len(),
{
    if values.len() == 0 {
        None
    } else if values[0].len() > PACK_BYTES {
        Some(IbltError::PayloadTooLarge { got: values[0].len() as usize, cap: PACK_BYTES })
    } else {
        first_too_large(values.drop_first())
    }
}

/// The byte strings behind a slice of slices.
pub open spec fn byte_views(s: Seq<&[u8]>) -> Seq<Seq<u8>> {
    Seq::new(s.len(), |i: int| s[i]@)
}

/// The sum of a vector of words.
pub open spec fn total(s: Seq<u64>) -> nat
    decreases s.len(),
{
    if s.len() == 0 {
        0
    } else {
        total(s.drop_last()) + s.last() as nat
    }
}

pub proof fn lemma_total_bounded(a: Seq<u64>, b: Seq<u64>)
    requires
        a.len() == b.len(),
        forall|i: int| 0 <= i < a.len() ==> a[i] <= b[i],
    ensures
        total(a) <= total(b),
    decreases a.len(),
{
    if a.len() > 0 {
        lemma_total_bounded(a.drop_last(), b.drop_last());
    }
}

pub proof fn lemma_total_drops(a: Seq<u64>, b: Seq<u64>, j: int)
    requires
        a.len() == b.len(),
        forall|i: int| 0 <= i < a.len() ==> a[i] <= b[i],
        0 <= j < a.len(),
        a[j] < b[j],
    ensures
        total(a) < total(b),
    decreases a.len(),
{
    if j == a.len() - 1 {
        lemma_total_bounded(a.drop_last(), b.drop_last());
    } else {
        lemma_total_drops(a.drop_last(), b.drop_last(), j);
    }
}

// ---------------------------------------------------------------------------
// Index arithmetic
// ---------------------------------------------------------------------------

pub proof fn lemma_cell_index(row: int, col: int, delta: int)
    requires
        0 <= col < delta,
    ensures
        (row * delta + col) / delta == row,
        (row * delta + col) % delta == col,
{
    vstd::arithmetic::div_mod::lemma_fundamental_div_mod_converse(row * delta + col, delta, row, col);
}

/// `x` lies in block `x / d` of length `d`.
pub proof fn lemma_block(x: int, d: int)
    requires
        0 <= x,
        0 < d,
    ensures
        x == (x / d) * d + x % d,
        0 <= x % d < d,
        0 <= x / d,
{
    vstd::arithmetic::div_mod::lemma_fundamental_div_mod(x, d);
    vstd::arithmetic::mul::lemma_mul_is_commutative(x / d, d);
    vstd::arithmetic::div_mod::lemma_div_pos_is_pos(x, d);
}

/// An index below `n · d` lies in one of the first `n` blocks of length `d`.
pub proof fn lemma_block_bound(x: int, n: int, d: int)
    requires
        0 <= x < n * d,
        0 < d,
    ensures
        0 <= x / d < n,
{
    lemma_block(x, d);
    let q = x / d;
    if q >= n {
        assert(q * d >= n * d) by (nonlinear_arith)
            requires
                q >= n,
                d > 0,
        ;
    }
}

/// An offset inside one of the first `n` blocks of length `d` lies below `n · d`.
pub proof fn lemma_block_fits(q: int, r: int, n: int, d: int)
    requires
        0 <= q < n,
        0 <= r < d,
    ensures
        0 <= q * d + r < n * d,
{
    assert(q * d + d <= n * d) by (nonlinear_arith)
        requires
            q + 1 <= n,
            d > 0,
    ;
    assert(0 <= q * d) by (nonlinear_arith)
        requires
            q >= 0,
            d > 0,
    ;
}

/// A table that fits has room for its parts, and a new one has a sound shape.
pub proof fn lemma_table_fits(n: u32, xi: usize)
    requires
        table_fits(n, xi as nat),
    ensures
        IBLT_GAMMA * delta_for(n) <= usize::MAX,
        IBLT_GAMMA * delta_for(n) * xi <= usize::MAX,
        empty_table(n, xi).shape_ok(),
        2 * empty_table(n, xi).cells() + empty_table(n, xi).values.len() == IBLT_GAMMA * delta_for(
            n,
        ) * (2 + xi),
{
    let cells = (IBLT_GAMMA * delta_for(n)) as int;
    let x = xi as int;
    assert(cells * (2 + x) == 2 * cells + cells * x) by (nonlinear_arith);
    assert(0 <= cells * x) by (nonlinear_arith)
        requires
            cells >= 0,
            x >= 0,
    ;
}

impl Packed {
    /// Among the cells of one row, an entry occupies exactly one.
    pub proof fn lemma_cell(self, row: int, ci: int, gamma: int, delta: nat)
        requires
            0 <= row < gamma,
            delta > 0,
            row * delta <= ci < row * delta + delta,
        ensures
            self.hits(ci, delta) <==> ci == self.cell(row, delta),
            0 <= self.cell(row, delta) < gamma * delta,
            row * delta <= self.cell(row, delta) < row * delta + delta,
            0 <= ci < gamma * delta,
            ci / delta as int == row,
    {
        let d = delta as int;
        lemma_cell_index(row, ci - row * d, d);
        let b = bucket(le_seq(self.key as nat, KEY_BYTES as nat), row as nat, delta) as int;
        assert(0 <= b < d);
        lemma_block_fits(row, b, gamma, d);
        lemma_block_fits(row, ci - row * d, gamma, d);
    }

    /// A table laid out as its sizes say has room for every entry as long as no
    /// counter is at its maximum.
    pub proof fn lemma_has_room(self, t: Table)
        requires
            t.laid_out(),
            t.counters_can_rise(),
        ensures
            t.has_room(self),
    {
        let d = t.delta as nat;
        let x = t.xi as int;
        assert forall|row: int| 0 <= row < t.gamma implies t.has_room_at(
            #[trigger] self.cell(row, d),
        ) by {
            self.lemma_own_cell(row, t.gamma as int, d);
            let ci = self.cell(row, d);
            if x > 0 {
                lemma_block_fits(ci, x - 1, t.cells() as int, x);
            }
        }
    }

    /// An entry occupies the cell that it is assigned in a row.
    pub proof fn lemma_own_cell(self, row: int, gamma: int, delta: nat)
        requires
            0 <= row < gamma,
            delta > 0,
        ensures
            self.hits(self.cell(row, delta), delta),
            0 <= self.cell(row, delta) < gamma * delta,
            self.cell(row, delta) / delta as int == row,
    {
        let b = bucket(le_seq(self.key as nat, KEY_BYTES as nat), row as nat, delta) as int;
        assert(0 <= b < delta);
        self.lemma_cell(row, self.cell(row, delta), gamma, delta);
    }
}

// ---------------------------------------------------------------------------
// Executable table
// ---------------------------------------------------------------------------

/// Buckets-per-row for an estimated element count.
pub fn iblt_delta(estimated_elements: u32) -> (r: usize)
    ensures
        r == delta_for(estimated_elements),
        r > 0,
{
    if estimated_elements == 0 {
        return 1;
    }
    let wanted: u64 = (estimated_elements as u64 * IBLT_LOAD_NUMERATOR + (IBLT_LOAD_DENOMINATOR
        - 1)) / IBLT_LOAD_DENOMINATOR;
    if wanted > usize::MAX as u64 {
        usize::MAX
    } else {
        wanted as usize
    }
}

/// Total field elements per encoded IBLT: `γ · δ · (2 + ξ)`.
/// (One counter, one key, ξ V slots per cell.)
pub fn iblt_field_element_count(estimated_elements: u32, xi: usize) -> (r: usize)
    requires
        table_fits(estimated_elements, xi as nat),
    ensures
        r == IBLT_GAMMA * delta_for(estimated_elements) * (2 + xi),
{
    let delta = iblt_delta(estimated_elements);
    proof {
        let c = IBLT_GAMMA * delta_for(estimated_elements);
        assert(c <= c * (2 + xi) && 2 + xi <= c * (2 + xi)) by (nonlinear_arith)
            requires
                c >= 1,
                xi >= 0,
        ;
    }
    IBLT_GAMMA * delta * (2 + xi)
}

#[derive(Debug)]
pub struct IbltVector {
    pub estimated_elements: u32,
    pub gamma: usize,
    pub delta: usize,
    pub xi: usize,
    /// `γ × δ` counters, row-major (`counters[row * δ + col]`).
    pub counters: Vec<u64>,
    /// `γ × δ` key field elements, row-major.
    pub keys: Vec<u64>,
    /// `γ × δ × ξ` payload field elements: `values[(row * δ + col) * ξ + v]`.
    pub values: Vec<u64>,
}

impl View for IbltVector {
    type V = Table;

    open spec fn view(&self) -> Table {
        Table {
            estimated_elements: self.estimated_elements,
            gamma: self.gamma,
            delta: self.delta,
            xi: self.xi,
            counters: self.counters@,
            keys: self.keys@,
            values: self.values@,
        }
    }
}

impl Clone for IbltVector {
    fn clone(&self) -> (r: Self)
        ensures
            r@ == self@,
    {
        IbltVector {
            estimated_elements: self.estimated_elements,
            gamma: self.gamma,
            delta: self.delta,
            xi: self.xi,
            counters: to_vec(&self.counters),
            keys: to_vec(&self.keys),
            values: to_vec(&self.values),
        }
    }
}

impl IbltVector {
    /// New IBLT sized for `estimated_elements`, ξ=0 (classical IBLT layout).
    pub fn new(estimated_elements: u32) -> (r: Self)
        requires
            IBLT_GAMMA * delta_for(estimated_elements) <= usize::MAX,
        ensures
            r@ == empty_table(estimated_elements, 0),
            r@.laid_out(),
    {
        Self::new_with_xi(estimated_elements, 0)
    }

    /// New IBLT with `xi` payload field elements per cell.
    pub fn new_with_xi(estimated_elements: u32, xi: usize) -> (r: Self)
        requires
            IBLT_GAMMA * delta_for(estimated_elements) <= usize::MAX,
            IBLT_GAMMA * delta_for(estimated_elements) * xi <= usize::MAX,
        ensures
            r@ == empty_table(estimated_elements, xi),
            r@.laid_out(),
    {
        let delta = iblt_delta(estimated_elements);
        let n_cells: usize = IBLT_GAMMA * delta;
        let n_values: usize = n_cells * xi;
        IbltVector {
            estimated_elements,
            gamma: IBLT_GAMMA,
            delta,
            xi,
            counters: zeros(n_cells),
            keys: zeros(n_cells),
            values: zeros(n_values),
        }
    }

    /// Flatten cells into a single field-element vector for blinding.
    ///
    /// Layout: counters, keys, values, row-major. Length = `γ · δ · (2 + ξ)`.
    pub fn encode_as_field_elements(&self) -> (out: Vec<u64>)
        ensures
            out@ == self@.elements(),
    {
        let mut out = to_vec(&self.counters);
        append_slice(&mut out, &self.keys);
        append_slice(&mut out, &self.values);
        out
    }
}

impl IbltVector {
    /// Index of cell `(row, col)` in `counters` and `keys`.
    pub fn cell_idx(&self, row: usize, col: usize) -> (r: usize)
        requires
            row * self.delta + col <= usize::MAX,
        ensures
            r == row * self.delta + col,
    {
        proof {
            assert(0 <= row * self.delta) by (nonlinear_arith);
        }
        row * self.delta + col
    }

    /// Insert a `(key, values)` tuple. `values.len()` must equal `self.xi`;
    /// each value slice must be ≤ `PACK_BYTES`.
    pub fn insert(&mut self, key: &[u8; KEY_BYTES], values: &[&[u8]]) -> (r: Result<
        (),
        IbltError,
    >)
        requires
            insert_refused(old(self)@, byte_views(values@)) is None ==> old(self)@.has_room(
                packed(key@, byte_views(values@)),
            ),
        ensures
            match insert_refused(old(self)@, byte_views(values@)) {
                Some(e) => r == Err::<(), IbltError>(e) && final(self)@ == old(self)@,
                None => r is Ok && final(self)@ == old(self)@.inserted(
                    packed(key@, byte_views(values@)),
                ),
            },
    {
        if values.len() != self.xi {
            return Err(IbltError::PayloadArity { expected: self.xi, got: values.len() });
        }
        let ghost vs = byte_views(values@);
        let ghost e = packed(key@, vs);
        let key_el = from_le_bytes_packed(key);
        let mut value_els: Vec<u64> = Vec::new();
        let mut i: usize = 0;
        proof {
            assert(vs.skip(0) =~= vs);
        }
        while i < values.len()
            invariant
                i <= values@.len(),
                vs == byte_views(values@),
                *self == *old(self),
                self.xi == values@.len(),
                first_too_large(vs) == first_too_large(vs.skip(i as int)),
                value_els@.len() == i,
                forall|k: int|
                    0 <= k < i ==> #[trigger] value_els@[k] == le_nat(vs[k]) && vs[k].len()
                        <= PACK_BYTES,
            decreases values@.len() - i,
        {
            proof {
                assert(vs[i as int] == values@[i as int]@);
                assert(vs.skip(i as int)[0] == values@[i as int]@);
                assert(vs.skip(i as int).drop_first() =~= vs.skip(i + 1));
            }
            if values[i].len() > PACK_BYTES {
                return Err(IbltError::PayloadTooLarge { got: values[i].len(), cap: PACK_BYTES });
            }
            let ghost prev = value_els@;
            value_els.push(from_le_bytes_packed(values[i]));
            proof {
                assert forall|k: int| 0 <= k < i + 1 implies #[trigger] value_els@[k] == le_nat(vs[k])
                    && vs[k].len() <= PACK_BYTES by {
                    if k < i {
                        assert(value_els@[k] == prev[k]);
                    }
                }
            }
            i = i + 1;
        }
        proof {
            assert(vs.skip(i as int).len() == 0);
            assert(value_els@ =~= e.values);
        }
        let ghost before = self@;
        let ghost target = before.inserted(e);
        let ghost d = self.delta as int;
        let ghost x = self.xi as int;
        let mut row: usize = 0;
        proof {
            crate::bytes::lemma_le_seq_of_le_nat(key@);
        }
        while row < self.gamma
            invariant
                d == self.delta,
                x == self.xi,
                target == before.inserted(e),
                key_el == e.key,
                key@ == le_seq(e.key as nat, KEY_BYTES as nat),
                value_els@ == e.values,
                e.values.len() == x,
                before.has_room(e),
                self@.estimated_elements == before.estimated_elements,
                self.gamma == before.gamma,
                self.delta == before.delta,
                self.xi == before.xi,
                self.counters@.len() == before.counters.len(),
                self.keys@.len() == before.keys.len(),
                self.values@.len() == before.values.len(),
                row <= self.gamma,
                forall|ci: int|
                    0 <= ci < before.counters.len() ==> #[trigger] self@.counters[ci] == if ci
                        < row * d {
                        target.counters[ci]
                    } else {
                        before.counters[ci]
                    },
                forall|ci: int|
                    0 <= ci < before.keys.len() ==> #[trigger] self@.keys[ci] == if ci < row * d {
                        target.keys[ci]
                    } else {
                        before.keys[ci]
                    },
                forall|vi: int|
                    0 <= vi < before.values.len() ==> #[trigger] self@.values[vi] == if x > 0 && vi
                        / x < row * d {
                        target.values[vi]
                    } else {
                        before.values[vi]
                    },
            decreases self.gamma - row,
        {
            let col = chunk_index(key, row, self.delta);
            proof {
                lemma_block_fits(row as int, col as int, self.gamma as int, d);
                e.lemma_own_cell(row as int, self.gamma as int, d as nat);
                assert(before.has_room_at(e.cell(row as int, d as nat)));
                assert(self.counters.len() == before.counters.len());
            }
            let ci = self.cell_idx(row, col);
            let ghost prev = self@;
            proof {
                assert(ci == e.cell(row as int, d as nat));
                assert(prev.counters[ci as int] == before.counters[ci as int]);
            }
            self.add_to_cell(ci, key_el, &value_els);
            proof {
                assert((row + 1) * d == row * d + d) by (nonlinear_arith);
                assert forall|cj: int|
                    0 <= cj < before.counters.len() implies #[trigger] self@.counters[cj] == if cj
                    < (row + 1) * d {
                    target.counters[cj]
                } else {
                    before.counters[cj]
                } by {
                    if row * d <= cj < row * d + d {
                        e.lemma_cell(row as int, cj, self.gamma as int, d as nat);
                    }
                    assert(prev.counters[cj] == if cj < row * d {
                        target.counters[cj]
                    } else {
                        before.counters[cj]
                    });
                }
                assert forall|cj: int|
                    0 <= cj < before.keys.len() implies #[trigger] self@.keys[cj] == if cj < (row
                    + 1) * d {
                    target.keys[cj]
                } else {
                    before.keys[cj]
                } by {
                    if row * d <= cj < row * d + d {
                        e.lemma_cell(row as int, cj, self.gamma as int, d as nat);
                    }
                    assert(prev.keys[cj] == if cj < row * d {
                        target.keys[cj]
                    } else {
                        before.keys[cj]
                    });
                }
                assert forall|vi: int|
                    0 <= vi < before.values.len() implies #[trigger] self@.values[vi] == if x > 0
                    && vi / x < (row + 1) * d {
                    target.values[vi]
                } else {
                    before.values[vi]
                } by {
                    assert(prev.values[vi] == if x > 0 && vi / x < row * d {
                        target.values[vi]
                    } else {
                        before.values[vi]
                    });
                    if x > 0 {
                        let cj = vi / x;
                        lemma_block(vi, x);
                        if row * d <= cj < row * d + d {
                            e.lemma_cell(row as int, cj, self.gamma as int, d as nat);
                        }
                        if cj == ci {
                            assert(ci * x <= vi < ci * x + x);
                        } else {
                            assert(!(ci * x <= vi < ci * x + x)) by {
                                if ci * x <= vi < ci * x + x {
                                    lemma_cell_index(ci as int, vi - ci * x, x);
                                }
                            }
                        }
                    }
                }
            }
            row = row + 1;
        }
        proof {
            assert(self@.counters =~= target.counters);
            assert(self@.keys =~= target.keys);
            assert(self@.values =~= target.values);
            assert(self@ =~= target);
        }
        Ok(())
    }

    /// Add one entry's components to cell `ci`.
    fn add_to_cell(&mut self, ci: usize, key_el: u64, value_els: &[u64])
        requires
            old(self)@.has_room_at(ci as int),
            value_els@.len() == old(self).xi,
        ensures
            final(self).estimated_elements == old(self).estimated_elements,
            final(self).gamma == old(self).gamma,
            final(self).delta == old(self).delta,
            final(self).xi == old(self).xi,
            final(self).counters@ == old(self).counters@.update(
                ci as int,
                (old(self).counters@[ci as int] + 1) as u64,
            ),
            final(self).keys@ == old(self).keys@.update(
                ci as int,
                fadd(old(self).keys@[ci as int], key_el),
            ),
            final(self).values@.len() == old(self).values@.len(),
            forall|vi: int|
                0 <= vi < old(self).values@.len() ==> #[trigger] final(self).values@[vi] == if ci
                    * old(self).xi <= vi < ci * old(self).xi + old(self).xi {
                    fadd(old(self).values@[vi], value_els@[vi - ci * old(self).xi])
                } else {
                    old(self).values@[vi]
                },
    {
        proof {
            assert(self.counters.len() == old(self).counters@.len());
            assert(self.keys.len() == old(self).keys@.len());
            assert(self.values.len() == old(self).values@.len());
            assert(0 <= ci * self.xi) by (nonlinear_arith);
            if self.xi == 0 {
                assert(ci * self.xi == 0) by (nonlinear_arith)
                    requires
                        self.xi == 0,
                ;
            }
        }
        self.counters[ci] = self.counters[ci] + 1;
        self.keys[ci] = add_mod(self.keys[ci], key_el, P);
        let base: usize = ci * self.xi;
        let mut v: usize = 0;
        while v < self.xi
            invariant
                v <= self.xi,
                self.estimated_elements == old(self).estimated_elements,
                self.gamma == old(self).gamma,
                self.delta == old(self).delta,
                self.xi == old(self).xi,
                base == ci * self.xi,
                self.xi > 0 ==> base + self.xi <= old(self).values@.len(),
                value_els@.len() == self.xi,
                self.values@.len() == old(self).values@.len(),
                self.counters@ == old(self).counters@.update(
                    ci as int,
                    (old(self).counters@[ci as int] + 1) as u64,
                ),
                self.keys@ == old(self).keys@.update(
                    ci as int,
                    fadd(old(self).keys@[ci as int], key_el),
                ),
                forall|vi: int|
                    0 <= vi < old(self).values@.len() ==> #[trigger] self.values@[vi] == if base
                        <= vi < base + v {
                        fadd(old(self).values@[vi], value_els@[vi - base])
                    } else {
                        old(self).values@[vi]
                    },
            decreases self.xi - v,
        {
            proof {
                assert(self.values.len() == old(self).values@.len());
            }
            self.values[base + v] = add_mod(self.values[base + v], value_els[v], P);
            v = v + 1;
        }
    }

    /// Single-chunk insert (ξ=0 layout).
    pub fn insert_chunk(&mut self, msg: &[u8; KEY_BYTES])
        requires
            old(self).xi == 0,
            old(self)@.has_room(packed(msg@, Seq::empty())),
        ensures
            final(self)@ == old(self)@.inserted(packed(msg@, Seq::empty())),
    {
        let none: Vec<&[u8]> = Vec::new();
        proof {
            assert(byte_views(none@) =~= Seq::empty());
        }
        let _ = self.insert(msg, &none);
    }

    /// The length as a vector of field elements of a table of sound shape.
    pub fn validate_shape(&self) -> (r: Result<usize, IbltError>)
        ensures
            match r {
                Ok(n) => self@.shape_ok() && n == 2 * self@.cells() + self.values@.len(),
                Err(e) => !self@.shape_ok() && e is InvalidShape,
            },
    {
        let cells = match self.gamma.checked_mul(self.delta) {
            Some(n) => n,
            None => return Err(IbltError::InvalidShape),
        };
        let values = match cells.checked_mul(self.xi) {
            Some(n) => n,
            None => return Err(IbltError::InvalidShape),
        };
        if self.gamma != IBLT_GAMMA || self.delta != iblt_delta(self.estimated_elements)
            || self.counters.len() != cells || self.keys.len() != cells || self.values.len()
            != values {
            return Err(IbltError::InvalidShape);
        }
        match cells.checked_mul(2) {
            Some(n) => match n.checked_add(values) {
                Some(m) => Ok(m),
                None => Err(IbltError::InvalidShape),
            },
            None => Err(IbltError::InvalidShape),
        }
    }

    /// Inverse of [`Self::encode_as_field_elements`]. Validates the table shape,
    /// input length, and canonical field values before modifying the table.
    pub fn decode_from_elements(&mut self, elements: &[u64]) -> (r: Result<&mut Self, IbltError>)
        ensures
            match r {
                Ok(t) => old(self)@.decoded(elements@) == Ok::<Table, IbltError>(t@)
                    && *final(self) == *final(t),
                Err(e) => old(self)@.decoded(elements@) == Err::<Table, IbltError>(e)
                    && *final(self) == *old(self),
            },
    {
        let expected = self.validate_shape()?;
        let n_cells = self.counters.len();
        if elements.len() != expected {
            return Err(
                IbltError::FieldElementCountMismatch { expected, got: elements.len() },
            );
        }
        if !is_all_canonical(elements) {
            return Err(IbltError::NonCanonicalFieldElement);
        }
        self.counters = to_vec(&elements[0..n_cells]);
        self.keys = to_vec(&elements[n_cells..2 * n_cells]);
        self.values = to_vec(&elements[2 * n_cells..elements.len()]);
        Ok(self)
    }
}

/// Queue positions as integers.
pub open spec fn as_ints(s: Seq<usize>) -> Seq<int> {
    Seq::new(s.len(), |i: int| s[i] as int)
}

impl IbltVector {
    /// Take one entry's components out of cell `ci`.
    fn take_from_cell(&mut self, ci: usize, key_el: u64, value_els: &[u64])
        requires
            old(self)@.laid_out(),
            ci < old(self)@.cells(),
            old(self).counters@[ci as int] > 0,
            value_els@.len() == old(self).xi,
        ensures
            final(self).estimated_elements == old(self).estimated_elements,
            final(self).gamma == old(self).gamma,
            final(self).delta == old(self).delta,
            final(self).xi == old(self).xi,
            final(self)@.laid_out(),
            final(self).counters@ == old(self).counters@.update(
                ci as int,
                (old(self).counters@[ci as int] - 1) as u64,
            ),
            final(self).keys@ == old(self).keys@.update(
                ci as int,
                fsub(old(self).keys@[ci as int], key_el),
            ),
            final(self).values@.len() == old(self).values@.len(),
            forall|vi: int|
                0 <= vi < old(self).values@.len() ==> #[trigger] final(self).values@[vi] == if ci
                    * old(self).xi <= vi < ci * old(self).xi + old(self).xi {
                    fsub(old(self).values@[vi], value_els@[vi - ci * old(self).xi])
                } else {
                    old(self).values@[vi]
                },
    {
        self.counters[ci] = self.counters[ci] - 1;
        self.keys[ci] = sub_mod(self.keys[ci], key_el, P);
        proof {
            assert(self.values.len() == old(self)@.cells() * old(self).xi);
            if self.xi > 0 {
                lemma_block_fits(ci as int, self.xi - 1, old(self)@.cells() as int, self.xi as int);
            }
            assert(0 <= ci * self.xi) by (nonlinear_arith);
            if self.xi == 0 {
                assert(ci * self.xi == 0) by (nonlinear_arith)
                    requires
                        self.xi == 0,
                ;
            }
        }
        let base: usize = ci * self.xi;
        let mut v: usize = 0;
        while v < self.xi
            invariant
                v <= self.xi,
                self.estimated_elements == old(self).estimated_elements,
                self.gamma == old(self).gamma,
                self.delta == old(self).delta,
                self.xi == old(self).xi,
                base == ci * self.xi,
                self.xi > 0 ==> base + self.xi <= old(self).values@.len(),
                value_els@.len() == self.xi,
                self.values@.len() == old(self).values@.len(),
                self.counters@ == old(self).counters@.update(
                    ci as int,
                    (old(self).counters@[ci as int] - 1) as u64,
                ),
                self.keys@ == old(self).keys@.update(
                    ci as int,
                    fsub(old(self).keys@[ci as int], key_el),
                ),
                forall|vi: int|
                    0 <= vi < old(self).values@.len() ==> #[trigger] self.values@[vi] == if base
                        <= vi < base + v {
                        fsub(old(self).values@[vi], value_els@[vi - base])
                    } else {
                        old(self).values@[vi]
                    },
            decreases self.xi - v,
        {
            proof {
                assert(self.values.len() == old(self).values@.len());
            }
            self.values[base + v] = sub_mod(self.values[base + v], value_els[v], P);
            v = v + 1;
        }
    }

    /// Take an entry out of the table and queue the cells that it makes pure.
    fn remove_entry(
        &mut self,
        key: &[u8; KEY_BYTES],
        key_el: u64,
        value_els: &[u64],
        queue: &mut Vec<usize>,
    ) -> (r: Result<(), IbltError>)
        requires
            old(self)@.laid_out(),
            key@ == le_seq(key_el as nat, KEY_BYTES as nat),
            value_els@.len() == old(self).xi,
        ensures
            ({
                let e = Packed { key: key_el, values: value_els@ };
                match r {
                    Ok(_) => {
                        &&& !old(self)@.misses(e)
                        &&& final(self)@ == old(self)@.removed(e)
                        &&& final(self)@.laid_out()
                        &&& as_ints(final(queue)@) == as_ints(old(queue)@)
                            + final(self)@.pure_cells_of(e, old(self).gamma as int)
                    },
                    Err(err) => err is UnexpectedZeroCounter && old(self)@.misses(e),
                }
            }),
    {
        let ghost e = Packed { key: key_el, values: value_els@ };
        let ghost before = self@;
        let ghost target = before.removed(e);
        let ghost d = self.delta as int;
        let ghost x = self.xi as int;
        let mut row: usize = 0;
        proof {
            assert(as_ints(queue@) + target.pure_cells_of(e, 0) =~= as_ints(queue@));
        }
        while row < self.gamma
            invariant
                d == self.delta,
                x == self.xi,
                before == old(self)@,
                before.laid_out(),
                target == before.removed(e),
                e == (Packed { key: key_el, values: value_els@ }),
                key@ == le_seq(e.key as nat, KEY_BYTES as nat),
                e.values.len() == x,
                self@.estimated_elements == before.estimated_elements,
                self.gamma == before.gamma,
                self.delta == before.delta,
                self.xi == before.xi,
                self@.laid_out(),
                row <= self.gamma,
                forall|ci: int|
                    0 <= ci < before.cells() ==> #[trigger] self@.counters[ci] == if ci < row * d {
                        target.counters[ci]
                    } else {
                        before.counters[ci]
                    },
                forall|ci: int|
                    0 <= ci < before.cells() ==> #[trigger] self@.keys[ci] == if ci < row * d {
                        target.keys[ci]
                    } else {
                        before.keys[ci]
                    },
                forall|vi: int|
                    0 <= vi < before.values.len() ==> #[trigger] self@.values[vi] == if vi / x
                        < row * d {
                        target.values[vi]
                    } else {
                        before.values[vi]
                    },
                forall|r: int|
                    0 <= r < row ==> before.counters[#[trigger] e.cell(r, d as nat)] != 0,
                as_ints(queue@) == as_ints(old(queue)@) + target.pure_cells_of(e, row as int),
            decreases self.gamma - row,
        {
            let col = chunk_index(key, row, self.delta);
            proof {
                lemma_block_fits(row as int, col as int, self.gamma as int, d);
                assert(self.counters.len() == before.cells());
                e.lemma_own_cell(row as int, self.gamma as int, d as nat);
            }
            let ci = self.cell_idx(row, col);
            proof {
                assert(ci == e.cell(row as int, d as nat));
                assert(self@.counters[ci as int] == before.counters[ci as int]);
            }
            if self.counters[ci] == 0 {
                return Err(IbltError::UnexpectedZeroCounter);
            }
            let ghost prev = self@;
            self.take_from_cell(ci, key_el, value_els);
            proof {
                assert((row + 1) * d == row * d + d) by (nonlinear_arith);
                assert forall|cj: int| 0 <= cj < before.cells() implies #[trigger] self@.counters[cj]
                    == if cj < (row + 1) * d {
                    target.counters[cj]
                } else {
                    before.counters[cj]
                } by {
                    if row * d <= cj < row * d + d {
                        e.lemma_cell(row as int, cj, self.gamma as int, d as nat);
                    }
                    assert(prev.counters[cj] == if cj < row * d {
                        target.counters[cj]
                    } else {
                        before.counters[cj]
                    });
                }
                assert forall|cj: int| 0 <= cj < before.cells() implies #[trigger] self@.keys[cj]
                    == if cj < (row + 1) * d {
                    target.keys[cj]
                } else {
                    before.keys[cj]
                } by {
                    if row * d <= cj < row * d + d {
                        e.lemma_cell(row as int, cj, self.gamma as int, d as nat);
                    }
                    assert(prev.keys[cj] == if cj < row * d {
                        target.keys[cj]
                    } else {
                        before.keys[cj]
                    });
                }
                assert forall|vi: int|
                    0 <= vi < before.values.len() implies #[trigger] self@.values[vi] == if vi / x
                    < (row + 1) * d {
                    target.values[vi]
                } else {
                    before.values[vi]
                } by {
                    let cj = vi / x;
                    assert(x > 0) by {
                        if x == 0 {
                            assert(before.cells() * 0 == 0);
                        }
                    }
                    lemma_block(vi, x);
                    lemma_block_bound(vi, before.cells() as int, x);
                    if row * d <= cj < row * d + d {
                        e.lemma_cell(row as int, cj, self.gamma as int, d as nat);
                    }
                    if cj == ci {
                        assert(ci * x <= vi < ci * x + x);
                    } else {
                        assert(!(ci * x <= vi < ci * x + x)) by {
                            if ci * x <= vi < ci * x + x {
                                lemma_cell_index(ci as int, vi - ci * x, x);
                            }
                        }
                    }
                    assert(prev.values[vi] == if vi / x < row * d {
                        target.values[vi]
                    } else {
                        before.values[vi]
                    });
                }
                assert(self@.counters[ci as int] == target.counters[ci as int]);
            }
            let ghost q = queue@;
            if self.counters[ci] == 1 {
                queue.push(ci);
                proof {
                    assert(as_ints(queue@) =~= as_ints(q).push(ci as int));
                    assert(as_ints(queue@) =~= as_ints(old(queue)@) + target.pure_cells_of(
                        e,
                        row as int,
                    ).push(ci as int));
                }
            }
            row = row + 1;
        }
        proof {
            assert(self@.counters =~= target.counters);
            assert(self@.keys =~= target.keys);
            assert forall|vi: int| 0 <= vi < before.values.len() implies self@.values[vi]
                == target.values[vi] by {
                assert(x > 0) by {
                    if x == 0 {
                        assert(before.cells() * 0 == 0);
                    }
                }
                lemma_block_bound(vi, before.cells() as int, x);
            }
            assert(self@.values =~= target.values);
            assert(self@ =~= target);
            assert(!before.misses(e)) by {
                assert forall|r: int| 0 <= r < before.gamma implies before.counters[#[trigger] e.cell(
                    r,
                    before.delta as nat,
                )] != 0 by {
                    assert(before.counters[e.cell(r, d as nat)] != 0);
                }
            }
        }
        Ok(())
    }

    /// The values of cell `ci`, or `None` if one does not fit in seven bytes.
    fn cell_values(&self, ci: usize) -> (r: Option<Vec<u64>>)
        requires
            self@.laid_out(),
            ci < self@.cells(),
        ensures
            match r {
                Some(v) => !self@.has_wide_value(ci as int) && v@ == self@.entry_at(
                    ci as int,
                ).values,
                None => self@.has_wide_value(ci as int),
            },
    {
        let mut out: Vec<u64> = Vec::new();
        let mut v: usize = 0;
        proof {
            assert(self.values.len() == self@.cells() * self.xi);
            if self.xi > 0 {
                lemma_block_fits(ci as int, self.xi - 1, self@.cells() as int, self.xi as int);
            }
            assert(0 <= ci * self.xi) by (nonlinear_arith);
            if self.xi == 0 {
                assert(ci * self.xi == 0) by (nonlinear_arith)
                    requires
                        self.xi == 0,
                ;
            }
        }
        let base: usize = ci * self.xi;
        while v < self.xi
            invariant
                v <= self.xi,
                base == ci * self.xi,
                self.xi > 0 ==> base + self.xi <= self.values@.len(),
                out@.len() == v,
                forall|k: int|
                    0 <= k < v ==> #[trigger] out@[k] == self.values@[base + k] && out@[k]
                        < PACK_LIMIT,
            decreases self.xi - v,
        {
            proof {
                assert(self.values.len() == self.values@.len());
            }
            let x = self.values[base + v];
            if x >= PACK_LIMIT {
                proof {
                    assert(self@.entry_at(ci as int).values[v as int] >= PACK_LIMIT);
                }
                return None;
            }
            out.push(x);
            v = v + 1;
        }
        proof {
            assert(out@ =~= self@.entry_at(ci as int).values);
        }
        Some(out)
    }

    /// Queue-based peeling. Returns recovered `(key, values)` tuples in
    /// arrival order. Errors if any cell remains non-zero after peeling
    /// drains.
    pub fn recover(&self) -> (r: Result<Vec<RecoveredEntry>, IbltError>)
        ensures
            match r {
                Ok(v) => self@.recovered() is Ok && views(v@) == unpack_all(
                    self@.recovered()->Ok_0,
                ),
                Err(e) => self@.recovered() == Err::<Seq<Packed>, IbltError>(e),
            },
    {
        let _ = self.validate_shape()?;
        if !is_all_canonical(&self.counters) || !is_all_canonical(&self.keys)
            || !is_all_canonical(&self.values) {
            return Err(IbltError::NonCanonicalFieldElement);
        }
        let mut working = self.clone();
        let mut recovered: Vec<RecoveredEntry> = Vec::new();
        let ghost mut out: Seq<Packed> = Seq::empty();
        let mut queue: Vec<usize> = Vec::new();
        let n_cells = self.counters.len();
        let mut i: usize = 0;
        proof {
            assert(as_ints(queue@) =~= self@.pure_cells(0));
        }
        while i < n_cells
            invariant
                n_cells == self.counters@.len(),
                i <= n_cells,
                as_ints(queue@) == self@.pure_cells(i as int),
                forall|k: int| 0 <= k < queue@.len() ==> #[trigger] queue@[k] < n_cells,
            decreases n_cells - i,
        {
            if self.counters[i] == 1 {
                let ghost q = queue@;
                queue.push(i);
                proof {
                    assert(as_ints(queue@) =~= as_ints(q).push(i as int));
                }
            }
            i = i + 1;
        }
        let mut head: usize = 0;
        proof {
            assert(as_ints(queue@).skip(0) =~= as_ints(queue@));
            assert(views(recovered@) =~= unpack_all(out));
        }
        while head < queue.len()
            invariant
                head <= queue@.len(),
                working@.laid_out(),
                working.counters@.len() == n_cells,
                self@.recovered() == working@.peel(as_ints(queue@).skip(head as int), out),
                views(recovered@) == unpack_all(out),
            decreases total(working.counters@), queue@.len() - head,
        {
            let ci = queue[head];
            let ghost pending = as_ints(queue@).skip(head as int);
            proof {
                assert(pending[0] == ci);
                assert(pending.drop_first() =~= as_ints(queue@).skip(head + 1));
            }
            head = head + 1;
            if ci >= working.counters.len() || working.counters[ci] != 1 {
                continue;
            }
            let ghost w = working@;
            let ghost e = w.entry_at(ci as int);
            let key_el = working.keys[ci];
            if key_el >= PACK_LIMIT {
                return Err(IbltError::InvalidPackedElement);
            }
            let key_bytes = to_le_bytes_packed(key_el);
            // Spurious pure cell (poisoned table) if the key doesn't re-hash here.
            let row: usize = ci / working.delta;
            let col: usize = ci % working.delta;
            if chunk_index(&key_bytes, row, working.delta) != col {
                continue;
            }
            let value_els = match working.cell_values(ci) {
                Some(v) => v,
                None => return Err(IbltError::InvalidPackedElement),
            };
            proof {
                assert(e =~= Packed { key: key_el, values: value_els@ });
            }
            let ghost q = queue@;
            let ghost cells_before = as_ints(queue@);
            match working.remove_entry(&key_bytes, key_el, &value_els, &mut queue) {
                Ok(_) => {},
                Err(err) => return Err(err),
            }
            let mut value_bytes: Vec<Vec<u8>> = Vec::new();
            let mut v: usize = 0;
            while v < value_els.len()
                invariant
                    v <= value_els@.len(),
                    forall|k: int|
                        0 <= k < value_els@.len() ==> #[trigger] value_els@[k] < PACK_LIMIT,
                    value_bytes@.len() == v,
                    forall|k: int|
                        0 <= k < v ==> #[trigger] value_bytes@[k]@ == le_seq(
                            value_els@[k] as nat,
                            PACK_BYTES as nat,
                        ),
                decreases value_els@.len() - v,
            {
                let b = to_le_bytes_packed(value_els[v]);
                value_bytes.push(to_vec(&b));
                v = v + 1;
            }
            let ghost got = recovered@;
            recovered.push(RecoveredEntry { key: key_bytes, values: value_bytes });
            proof {
                lemma_total_drops(w.removed(e).counters, w.counters, ci as int);
                assert(recovered@.last()@ =~= unpacked(e));
                assert(views(recovered@) =~= views(got).push(unpacked(e)));
                assert(unpack_all(out.push(e)) =~= unpack_all(out).push(unpacked(e)));
                assert(as_ints(queue@).skip(head as int) =~= pending.drop_first()
                    + working@.pure_cells_of(e, w.gamma as int));
                out = out.push(e);
            }
        }
        proof {
            assert(as_ints(queue@).skip(head as int).len() == 0);
        }
        if all_zero(&working.counters) && all_zero(&working.keys) && all_zero(&working.values) {
            Ok(recovered)
        } else {
            Err(IbltError::PeelStalled)
        }
    }
}

/// Whether every word is zero.
fn all_zero(s: &[u64]) -> (r: bool)
    ensures
        r == (forall|i: int| 0 <= i < s@.len() ==> s@[i] == 0),
{
    let mut i: usize = 0;
    while i < s.len()
        invariant
            i <= s@.len(),
            forall|k: int| 0 <= k < i ==> s@[k] == 0,
        decreases s@.len() - i,
    {
        if s[i] != 0 {
            return false;
        }
        i = i + 1;
    }
    true
}

/// Bucket index for `chunk` at row `row`:
/// `SHA-256(row_be || chunk)[0..8] mod δ`. The row prefix is the 4-byte
/// big-endian encoding of `row`.
pub fn chunk_index(chunk: &[u8; KEY_BYTES], row: usize, delta: usize) -> (r: usize)
    requires
        delta > 0,
    ensures
        r == bucket(chunk@, row as nat, delta as nat),
        r < delta,
{
    let mut input = write_be(row as u64, 4);
    append_slice(&mut input, chunk);
    let out = sha256_digest(&input);
    let seed = read_be(&out[0..8]);
    (seed % delta as u64) as usize
}

#[derive(Clone, Copy, Debug, PartialEq, Eq, Structural)]
pub enum IbltError {
    InvalidShape,
    NonCanonicalFieldElement,
    InvalidPackedElement,
    UnexpectedZeroCounter,
    PeelStalled,
    FieldElementCountMismatch { expected: usize, got: usize },
    PayloadArity { expected: usize, got: usize },
    PayloadTooLarge { got: usize, cap: usize },
}

/// One recovered IBLT entry.
#[derive(Debug, PartialEq, Eq)]
pub struct RecoveredEntry {
    pub key: [u8; KEY_BYTES],
    pub values: Vec<Vec<u8>>,
}

impl View for RecoveredEntry {
    type V = Entry;

    open spec fn view(&self) -> Entry {
        Entry {
            key: self.key@,
            values: views(self.values@),
        }
    }
}

impl Clone for RecoveredEntry {
    fn clone(&self) -> (r: Self)
        ensures
            r@ == self@,
    {
        RecoveredEntry { key: self.key, values: to_vecs(&self.values) }
    }
}

} // verus!
