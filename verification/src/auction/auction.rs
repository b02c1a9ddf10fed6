//! Auction data encoding, knapsack-based winner selection, and slot assignment.

use vstd::prelude::*;

use crate::bytes::{
    be_nat, be_seq, bytes_le, bytes_not_after, lemma_bytes_le_total, lemma_bytes_le_transitive,
    read_be, write_be,
};
use crate::crypto::fields::PACK_BYTES;
use crate::crypto::hashing::{sha256, sha256_digest};
use crate::sorting::{
    law_sorting_orders, lemma_sorted_positions, placed, sorted, stable_sort_slice, views, Ranked,
};

use super::iblt::KEY_BYTES;

verus! {

/// Knapsack granularity in bytes. Bids round their size up to the next
/// multiple of this constant before the DP runs. Each DP row has
/// `total_bandwidth / KNAPSACK_CHUNK_BYTES + 1` entries.
pub const KNAPSACK_CHUNK_BYTES: u32 = 1024;

/// Number of V slots used to carry an [`AuctionData`] inside a multi-V IBLT
/// cell:
///
/// - `V[0]`: weight (u32, big-endian, in low 4 bytes)
/// - `V[1]`: size   (u32, big-endian, in low 4 bytes)
/// - `V[2]`: message_hash[0..7]
/// - `V[3]`: message_hash[7..14]
///
/// Only the first 14 bytes of the SHA-256 hash are carried.
pub const AUCTION_BID_XI: usize = 4;

/// Bytes of `message_hash` actually transmitted (= `2 × PACK_BYTES`).
pub const AUCTION_HASH_TRUNC_BYTES: usize = 2 * PACK_BYTES;

/// Number of IBLT key bytes (random nonce per bid; ensures multiple bids with
/// identical `(weight, size, hash)` payloads still land in distinct cells).
pub const AUCTION_KEY_BYTES: usize = KEY_BYTES;

// ---------------------------------------------------------------------------
// Model
// ---------------------------------------------------------------------------

/// A bid as the contracts see it.
#[verifier::ext_equal]
pub struct Bid {
    pub message_hash: Seq<u8>,
    pub weight: u32,
    pub size: u32,
}

/// A winning bid and its slot.
#[verifier::ext_equal]
pub struct Award {
    pub bid: Bid,
    pub slot_idx: u32,
    pub slot_size: u32,
}

/// A bid of `weight` for a slot that `msg` fills.
pub open spec fn bid_on(msg: Seq<u8>, weight: u32) -> Bid {
    Bid { message_hash: sha256(msg), weight, size: (msg.len() % 0x1_0000_0000) as u32 }
}

/// `n` zero bytes.
pub open spec fn zero_bytes(n: nat) -> Seq<u8> {
    Seq::new(n, |i: int| 0u8)
}

impl Bid {
    /// The four value slots that carry the bid.
    pub open spec fn values(self) -> Seq<Seq<u8>> {
        seq![
            be_seq(self.weight as nat, 4) + zero_bytes(3),
            be_seq(self.size as nat, 4) + zero_bytes(3),
            self.message_hash.subrange(0, 7),
            self.message_hash.subrange(7, 14),
        ]
    }

    /// The bid with its hash cut to the transmitted prefix and filled up with
    /// zeros.
    pub open spec fn truncated(self) -> Bid {
        Bid { message_hash: self.message_hash.take(14) + zero_bytes(18), ..self }
    }

    /// The bid with its size raised to `min`.
    pub open spec fn raised(self, min: u32) -> Bid {
        if self.size < min {
            Bid { size: min, ..self }
        } else {
            self
        }
    }
}

/// The value slots are long enough to read a bid from.
pub open spec fn readable_values(vs: Seq<Seq<u8>>) -> bool {
    &&& vs.len() >= AUCTION_BID_XI
    &&& vs[0].len() >= 4
    &&& vs[1].len() >= 4
    &&& vs[2].len() >= PACK_BYTES
    &&& vs[3].len() >= PACK_BYTES
}

/// The bid that value slots carry.
pub open spec fn bid_of_values(vs: Seq<Seq<u8>>) -> Bid {
    Bid {
        message_hash: vs[2].take(7) + vs[3].take(7) + zero_bytes(18),
        weight: be_nat(vs[0].take(4)) as u32,
        size: be_nat(vs[1].take(4)) as u32,
    }
}

/// `⌈size / chunk⌉`.
pub open spec fn chunks_for(size: u32, chunk: u32) -> int {
    (size + chunk - 1) / (chunk as int)
}

/// An item of the knapsack: a bid and the chunks that it takes.
#[verifier::ext_equal]
pub struct Item {
    pub bid: Bid,
    pub chunks: nat,
}

/// The largest weight that items among the first `k` reach in `w` chunks.
pub open spec fn best(items: Seq<Item>, k: int, w: int) -> nat
    decreases k,
{
    if k <= 0 {
        0
    } else {
        let without = best(items, k - 1, w);
        let with = best(items, k - 1, w - items[k - 1].chunks) + items[k - 1].bid.weight as nat;
        if items[k - 1].chunks <= w && with > without {
            with
        } else {
            without
        }
    }
}

/// Item `k` improves on what the items before it reach in `w` chunks.
pub open spec fn takes(items: Seq<Item>, k: int, w: int) -> bool {
    items[k].chunks <= w && best(items, k, w - items[k].chunks) + items[k].bid.weight > best(
        items,
        k,
        w,
    )
}

/// Which of the first `k` items the trace-back from `w` free chunks selects.
pub open spec fn chosen(items: Seq<Item>, k: int, w: int) -> Seq<bool>
    decreases k,
{
    if k <= 0 {
        Seq::empty()
    } else if takes(items, k - 1, w) {
        chosen(items, k - 1, w - items[k - 1].chunks).push(true)
    } else {
        chosen(items, k - 1, w).push(false)
    }
}

/// The chunks that a selection takes.
pub open spec fn chunks_of(items: Seq<Item>, selected: Seq<bool>) -> nat
    decreases selected.len(),
{
    if selected.len() == 0 {
        0
    } else {
        chunks_of(items, selected.drop_last()) + if selected.last() {
            items[selected.len() - 1].chunks
        } else {
            0nat
        }
    }
}

/// The weight that a selection reaches.
pub open spec fn weight_of(items: Seq<Item>, selected: Seq<bool>) -> nat
    decreases selected.len(),
{
    if selected.len() == 0 {
        0
    } else {
        weight_of(items, selected.drop_last()) + if selected.last() {
            items[selected.len() - 1].bid.weight as nat
        } else {
            0nat
        }
    }
}

/// The awards for a selection, in bid order, each at offset zero.
pub open spec fn awards(items: Seq<Item>, selected: Seq<bool>, chunk_bytes: u32) -> Seq<Award>
    decreases selected.len(),
{
    if selected.len() == 0 {
        Seq::empty()
    } else {
        let before = awards(items, selected.drop_last(), chunk_bytes);
        let item = items[selected.len() - 1];
        if selected.last() {
            before.push(
                Award {
                    bid: item.bid,
                    slot_idx: 0,
                    slot_size: (item.chunks * chunk_bytes) as u32,
                },
            )
        } else {
            before
        }
    }
}

/// The sizes of the first `n` slots added up.
pub open spec fn offset(ws: Seq<Award>, n: int) -> nat
    decreases n,
{
    if n <= 0 {
        0
    } else {
        offset(ws, n - 1) + ws[n - 1].slot_size as nat
    }
}

/// The awards with their slots laid end to end.
pub open spec fn laid_end_to_end(ws: Seq<Award>) -> Seq<Award> {
    Seq::new(ws.len(), |i: int| Award { slot_idx: offset(ws, i) as u32, ..ws[i] })
}

/// The bids that can win at all, raised to `min` bytes, with their chunks.
pub open spec fn eligible(bids: Seq<Bid>, bandwidth: u32, min: u32, chunk: u32) -> Seq<Item>
    decreases bids.len(),
{
    if bids.len() == 0 {
        Seq::empty()
    } else {
        let before = eligible(bids.drop_last(), bandwidth, min, chunk);
        let b = bids.last().raised(min);
        if b.weight == 0 || b.size > bandwidth || chunks_for(b.size, chunk) > bandwidth / chunk {
            before
        } else {
            before.push(Item { bid: b, chunks: chunks_for(b.size, chunk) as nat })
        }
    }
}

/// The winners of an auction among `items` for `cap` chunks, by hash.
pub open spec fn knapsack_winners(items: Seq<Item>, cap: int, chunk: u32) -> Seq<Award> {
    sorted::<AuctionWinner>(awards(items, chosen(items, items.len() as int, cap), chunk))
}

/// The outcome of an auction.
pub open spec fn auction(bids: Seq<Bid>, bandwidth: u32, min: u32, chunk: u32) -> Seq<Award> {
    if bids.len() == 0 || bandwidth < chunk {
        Seq::empty()
    } else {
        let items = eligible(bids, bandwidth, min, chunk);
        laid_end_to_end(knapsack_winners(items, (bandwidth / chunk) as int, chunk))
    }
}

// ---------------------------------------------------------------------------
// Bids
// ---------------------------------------------------------------------------

/// A client's bid: weight (utility), message size in bytes, and a SHA-256-derived
/// hash so winners can identify themselves by hash without revealing the message.
#[derive(Clone, Copy, Debug, PartialEq, Eq)]
pub struct AuctionData {
    pub message_hash: [u8; 32],
    pub weight: u32,
    pub size: u32,
}

impl View for AuctionData {
    type V = Bid;

    open spec fn view(&self) -> Bid {
        Bid { message_hash: self.message_hash@, weight: self.weight, size: self.size }
    }
}

/// The first seven bytes of `v`.
fn seven(v: &[u8]) -> (r: [u8; PACK_BYTES])
    requires
        v@.len() >= PACK_BYTES,
    ensures
        r@ == v@.take(7),
{
    let r: [u8; PACK_BYTES] = [v[0], v[1], v[2], v[3], v[4], v[5], v[6]];
    proof {
        assert(r@ =~= v@.take(7));
    }
    r
}

/// The four big-endian bytes of `x`, followed by three zero bytes.
fn word_slot(x: u32) -> (r: [u8; PACK_BYTES])
    ensures
        r@ == be_seq(x as nat, 4) + zero_bytes(3),
{
    let b = write_be(x as u64, 4);
    let r: [u8; PACK_BYTES] = [b[0], b[1], b[2], b[3], 0, 0, 0];
    proof {
        assert(r@ =~= b@ + zero_bytes(3));
    }
    r
}

/// The number in the first four bytes of `v`.
fn slot_word(v: &[u8]) -> (r: u32)
    requires
        v@.len() >= 4,
    ensures
        r == be_nat(v@.take(4)),
{
    let x = read_be(&v[0..4]);
    proof {
        assert(v@.subrange(0, 4) =~= v@.take(4));
        crate::bytes::lemma_le_nat_bound(v@.take(4).reverse());
        crate::bytes::lemma_pow256_values();
    }
    x as u32
}

impl AuctionData {
    /// A bid of `weight` for a slot that `msg` fills.
    pub fn from_message(msg: &[u8], weight: u32) -> (r: Self)
        ensures
            r@ == bid_on(msg@, weight),
    {
        let message_hash = sha256_digest(msg);
        AuctionData { message_hash, weight, size: (msg.len() as u64 % 0x1_0000_0000u64) as u32 }
    }

    /// Serialize the bid into 4 V-slot byte arrays for IBLT insertion.
    pub fn encode_values(&self) -> (r: [[u8; PACK_BYTES]; AUCTION_BID_XI])
        ensures
            Seq::new(4, |i: int| r@[i]@) == self@.values(),
    {
        let v0 = word_slot(self.weight);
        let v1 = word_slot(self.size);
        let v2 = seven(&self.message_hash[0..7]);
        let v3 = seven(&self.message_hash[7..14]);
        let r = [v0, v1, v2, v3];
        proof {
            let h = self.message_hash@;
            assert(h.subrange(0, 7).take(7) =~= h.subrange(0, 7));
            assert(h.subrange(7, 14).take(7) =~= h.subrange(7, 14));
            assert(Seq::new(4, |i: int| r@[i]@) =~= self@.values());
        }
        r
    }

    /// Inverse of [`Self::encode_values`]. `message_hash` is zero-padded past
    /// the truncated prefix.
    pub fn from_values(vs: &[Vec<u8>]) -> (r: Self)
        requires
            readable_values(views(vs@)),
        ensures
            r@ == bid_of_values(views(vs@)),
    {
        proof {
            assert(views(vs@)[0] == vs@[0]@ && views(vs@)[1] == vs@[1]@ && views(vs@)[2]
                == vs@[2]@ && views(vs@)[3] == vs@[3]@);
        }
        let weight = slot_word(&vs[0]);
        let size = slot_word(&vs[1]);
        let mut message_hash = [0u8; 32];
        let mut i: usize = 0;
        while i < PACK_BYTES
            invariant
                i <= PACK_BYTES,
                readable_values(views(vs@)),
                vs@.len() >= 4,
                views(vs@)[2] == vs@[2]@,
                views(vs@)[3] == vs@[3]@,
                forall|k: int| 0 <= k < i ==> #[trigger] message_hash@[k] == vs@[2]@[k],
                forall|k: int| 0 <= k < i ==> message_hash@[7 + k] == #[trigger] vs@[3]@[k],
                forall|k: int| 14 <= k < 32 ==> #[trigger] message_hash@[k] == 0,
            decreases PACK_BYTES - i,
        {
            message_hash[i] = vs[2][i];
            message_hash[PACK_BYTES + i] = vs[3][i];
            i = i + 1;
        }
        let r = AuctionData { message_hash, weight, size };
        proof {
            let want = bid_of_values(views(vs@)).message_hash;
            assert forall|k: int| 0 <= k < 32 implies message_hash@[k] == want[k] by {
                if 7 <= k < 14 {
                    assert(message_hash@[7 + (k - 7)] == vs@[3]@[k - 7]);
                }
            }
            assert(message_hash@ =~= want);
        }
        r
    }

    /// Truncated message hash used for in-band auction identification.
    pub fn truncated_hash(&self) -> (r: [u8; AUCTION_HASH_TRUNC_BYTES])
        ensures
            r@ == self@.message_hash.take(AUCTION_HASH_TRUNC_BYTES as int),
    {
        let mut out = [0u8; AUCTION_HASH_TRUNC_BYTES];
        let mut i: usize = 0;
        while i < AUCTION_HASH_TRUNC_BYTES
            invariant
                i <= AUCTION_HASH_TRUNC_BYTES,
                forall|k: int| 0 <= k < i ==> #[trigger] out@[k] == self.message_hash@[k],
            decreases AUCTION_HASH_TRUNC_BYTES - i,
        {
            out[i] = self.message_hash[i];
            i = i + 1;
        }
        proof {
            assert(out@ =~= self@.message_hash.take(AUCTION_HASH_TRUNC_BYTES as int));
        }
        out
    }
}

/// Reading back what was written gives the bid with its hash truncated.
pub proof fn law_bid_round_trip(b: Bid)
    requires
        b.message_hash.len() == 32,
    ensures
        readable_values(b.values()),
        bid_of_values(b.values()) == b.truncated(),
{
    let vs = b.values();
    crate::bytes::lemma_pow256_values();
    crate::bytes::lemma_be_round_trip(b.weight as nat, 4);
    crate::bytes::lemma_be_round_trip(b.size as nat, 4);
    assert(vs[0].take(4) =~= be_seq(b.weight as nat, 4));
    assert(vs[1].take(4) =~= be_seq(b.size as nat, 4));
    assert(vs[2].take(7) + vs[3].take(7) + zero_bytes(18) =~= b.message_hash.take(14)
        + zero_bytes(18));
}

// ---------------------------------------------------------------------------
// Winners
// ---------------------------------------------------------------------------

#[derive(Clone, Copy, Debug, PartialEq, Eq)]
pub struct AuctionWinner {
    pub bid: AuctionData,
    pub slot_idx: u32,
    pub slot_size: u32,
}

impl View for AuctionWinner {
    type V = Award;

    open spec fn view(&self) -> Award {
        Award { bid: self.bid@, slot_idx: self.slot_idx, slot_size: self.slot_size }
    }
}

/// Winners rank by the hash of their message.
impl Ranked for AuctionWinner {
    open spec fn ranks_le(a: Award, b: Award) -> bool {
        bytes_le(a.bid.message_hash, b.bid.message_hash)
    }

    proof fn lemma_total(a: Award, b: Award) {
        lemma_bytes_le_total(a.bid.message_hash, b.bid.message_hash);
    }

    proof fn lemma_transitive(a: Award, b: Award, c: Award) {
        lemma_bytes_le_transitive(a.bid.message_hash, b.bid.message_hash, c.bid.message_hash);
    }

    fn not_above(&self, other: &Self) -> (r: bool) {
        bytes_not_after(&self.bid.message_hash, &other.bid.message_hash)
    }
}

// ---------------------------------------------------------------------------
// Knapsack
// ---------------------------------------------------------------------------

/// The items behind a list of bids and chunk counts.
pub open spec fn item_views(s: Seq<(AuctionData, u32)>) -> Seq<Item> {
    Seq::new(s.len(), |i: int| Item { bid: s[i].0@, chunks: s[i].1 as nat })
}

proof fn lemma_best_bound(items: Seq<Item>, k: int, w: int)
    requires
        0 <= k,
    ensures
        best(items, k, w) <= k * u32::MAX,
    decreases k,
{
    if k > 0 {
        lemma_best_bound(items, k - 1, w);
        lemma_best_bound(items, k - 1, w - items[k - 1].chunks);
    }
}

/// The trace-back selects items that fit and reach the best weight.
pub proof fn law_chosen_fit_and_are_best(items: Seq<Item>, k: int, w: int)
    requires
        0 <= k <= items.len(),
        0 <= w,
    ensures
        chosen(items, k, w).len() == k,
        chunks_of(items, chosen(items, k, w)) <= w,
        weight_of(items, chosen(items, k, w)) == best(items, k, w),
    decreases k,
{
    if k > 0 {
        let s = chosen(items, k, w);
        if takes(items, k - 1, w) {
            let c = items[k - 1].chunks;
            law_chosen_fit_and_are_best(items, k - 1, w - c);
            assert(s.drop_last() =~= chosen(items, k - 1, w - c));
        } else {
            law_chosen_fit_and_are_best(items, k - 1, w);
            assert(s.drop_last() =~= chosen(items, k - 1, w));
        }
    }
}

/// No selection that fits outweighs the best.
pub proof fn law_best_is_optimal(items: Seq<Item>, selected: Seq<bool>, w: int)
    requires
        selected.len() <= items.len(),
        chunks_of(items, selected) <= w,
    ensures
        weight_of(items, selected) <= best(items, selected.len() as int, w),
    decreases selected.len(),
{
    if selected.len() > 0 {
        let k = selected.len() - 1;
        if selected.last() {
            law_best_is_optimal(items, selected.drop_last(), w - items[k].chunks);
        } else {
            law_best_is_optimal(items, selected.drop_last(), w);
        }
    }
}

/// Bit `w` of a row of words.
spec fn bit_of(row: Seq<u64>, w: int) -> bool {
    (row[w / 64] >> ((w % 64) as u64)) & 1 == 1
}

fn set_bit(row: &mut Vec<u64>, w: usize)
    requires
        w / 64 < old(row)@.len(),
    ensures
        final(row)@.len() == old(row)@.len(),
        forall|x: int|
            0 <= x < old(row)@.len() * 64 ==> #[trigger] bit_of(final(row)@, x) == (x == w
                || bit_of(old(row)@, x)),
{
    let idx: usize = w / 64;
    let b: u64 = (w % 64) as u64;
    let a: u64 = row[idx];
    let n: u64 = a | (1u64 << b);
    row[idx] = n;
    proof {
        assert forall|x: int| 0 <= x < old(row)@.len() * 64 implies #[trigger] bit_of(row@, x) == (x
            == w || bit_of(old(row)@, x)) by {
            if x / 64 == idx {
                let c: u64 = (x % 64) as u64;
                assert(((a | (1u64 << b)) >> c) & 1 == 1 <==> (b == c || (a >> c) & 1 == 1))
                    by (bit_vector)
                    requires
                        b < 64,
                        c < 64,
                ;
            }
        }
    }
}

fn test_bit(row: &Vec<u64>, w: usize) -> (r: bool)
    requires
        w / 64 < row@.len(),
    ensures
        r == bit_of(row@, w as int),
{
    let b: u64 = (w % 64) as u64;
    (row[w / 64] >> b) & 1 == 1
}

/// A vector of `cap + 1` zeros.
fn blank_row(cap: u32) -> (dp: Vec<u128>)
    ensures
        dp@.len() == cap + 1,
        forall|w: int| 0 <= w <= cap ==> #[trigger] dp@[w] == 0,
{
    let mut dp: Vec<u128> = Vec::new();
    let mut k: u64 = 0;
    while k <= cap as u64
        invariant
            k <= cap + 1,
            dp@.len() == k,
            forall|w: int| 0 <= w < k ==> #[trigger] dp@[w] == 0,
        decreases cap + 1 - k,
    {
        dp.push(0);
        k = k + 1;
    }
    dp
}

/// `⌈size / chunk⌉`.
fn div_ceil(size: u32, chunk: u32) -> (r: u32)
    requires
        chunk > 0,
    ensures
        r == chunks_for(size, chunk),
{
    proof {
        let c = chunk as int;
        if size == 0 {
            vstd::arithmetic::div_mod::lemma_basic_div(c - 1, c);
        } else {
            vstd::arithmetic::div_mod::lemma_div_plus_one(size - 1, c);
            assert((size - 1) / c <= size - 1) by {
                vstd::arithmetic::div_mod::lemma_div_is_ordered_by_denominator(size - 1, 1, c);
            }
        }
    }
    if size == 0 {
        0
    } else {
        (size - 1) / chunk + 1
    }
}

/// Knapsack-based auction. Selects bids that maximize total weight under a
/// total-bandwidth constraint and assigns contiguous offsets in the round's
/// message vector.
///
/// Bids are quantized to `chunk_bytes`-byte granularity for the DP, so the
/// solver memory scales as `n · total_bandwidth / chunk_bytes / 8` bytes
/// instead of `n · total_bandwidth` bytes. Allocated slots are always
/// multiples of `chunk_bytes`; the client writes its actual `bid.size` bytes
/// at the slot's start and the remaining padding is zero.
pub struct AuctionEngine {
    pub total_bandwidth: u32,
    pub min_message_size: u32,
    pub chunk_bytes: u32,
}

impl AuctionEngine {
    /// Default constructor — uses [`KNAPSACK_CHUNK_BYTES`] (1 KiB) granularity.
    pub fn new(total_bandwidth: u32, min_message_size: u32) -> (r: Self)
        ensures
            r == (AuctionEngine {
                total_bandwidth,
                min_message_size,
                chunk_bytes: KNAPSACK_CHUNK_BYTES,
            }),
    {
        Self::with_chunk_bytes(total_bandwidth, min_message_size, KNAPSACK_CHUNK_BYTES)
    }

    /// Construct with an explicit quantization granularity. `chunk_bytes = 1`
    /// gives byte-level allocation at a higher memory cost.
    pub fn with_chunk_bytes(total_bandwidth: u32, min_message_size: u32, chunk_bytes: u32) -> (r:
        Self)
        requires
            chunk_bytes > 0,
        ensures
            r == (AuctionEngine { total_bandwidth, min_message_size, chunk_bytes }),
    {
        AuctionEngine { total_bandwidth, min_message_size, chunk_bytes }
    }

    /// Standard 0/1 knapsack DP over `(weight, chunks)` items. Uses a 1-D
    /// rolling `dp` row plus a compact bit row per item for trace-back (one
    /// bit per (item, weight) telling whether the item was included in the
    /// optimum at that capacity).
    fn knapsack(&self, bids: &[(AuctionData, u32)], total_chunks: u32) -> (r: Vec<AuctionWinner>)
        requires
            total_chunks * self.chunk_bytes <= u32::MAX,
        ensures
            views(r@) == knapsack_winners(
                item_views(bids@),
                total_chunks as int,
                self.chunk_bytes,
            ),
    {
        let ghost items = item_views(bids@);
        let n = bids.len();
        let mut dp = blank_row(total_chunks);
        proof {
            assert(dp.len() == total_chunks + 1);
        }
        let cap: usize = total_chunks as usize;
        let row_words: usize = cap / 64 + 1;
        let mut keep: Vec<Vec<u64>> = Vec::new();
        let mut i: usize = 0;
        while i < n
            invariant
                n == bids@.len(),
                items == item_views(bids@),
                i <= n,
                cap + 1 == dp.len(),
                cap < usize::MAX,
                row_words == cap / 64 + 1,
                keep@.len() == i,
                forall|w: int| 0 <= w <= cap ==> #[trigger] dp@[w] == best(items, i as int, w),
                forall|j: int| 0 <= j < i ==> (#[trigger] keep@[j])@.len() == row_words,
                forall|j: int, w: int|
                    0 <= j < i && 0 <= w <= cap ==> #[trigger] bit_of(keep@[j]@, w) == takes(
                        items,
                        j,
                        w,
                    ),
            decreases n - i,
        {
            let weight: u128 = bids[i].0.weight as u128;
            let chunks: u32 = bids[i].1;
            let ghost old_dp = dp@;
            let mut row: Vec<u64> = vec![0u64; row_words];
            proof {
                assert(items[i as int].chunks == chunks);
                assert(items[i as int].bid.weight == weight);
                assert forall|w: int| 0 <= w <= cap implies !(#[trigger] bit_of(row@, w)) by {
                    let b: u64 = (w % 64) as u64;
                    assert((0u64 >> b) & 1 == 0) by (bit_vector)
                        requires
                            b < 64,
                    ;
                    assert(row@[w / 64] == 0);
                }
            }
            // Downwards, so that each item is used at most once.
            let mut w: usize = cap + 1;
            while w as u64 > chunks as u64
                invariant
                    0 <= i < n,
                    n == bids@.len(),
                    items == item_views(bids@),
                    cap < usize::MAX,
                    w <= cap + 1,
                    cap + 1 == dp.len(),
                    cap + 1 == old_dp.len(),
                    row@.len() == cap / 64 + 1,
                    items[i as int].chunks == chunks,
                    items[i as int].bid.weight == weight,
                    weight <= u32::MAX,
                    forall|x: int|
                        0 <= x <= cap ==> #[trigger] old_dp[x] == best(items, i as int, x),
                    forall|x: int| 0 <= x < w ==> #[trigger] dp@[x] == old_dp[x],
                    forall|x: int|
                        w <= x <= cap ==> #[trigger] dp@[x] == best(items, i + 1, x),
                    forall|x: int|
                        0 <= x <= cap ==> #[trigger] bit_of(row@, x) == (x >= w && takes(
                            items,
                            i as int,
                            x,
                        )),
                decreases w,
            {
                w = w - 1;
                let size: usize = chunks as usize;
                proof {
                    lemma_best_bound(items, i as int, w as int);
                    lemma_best_bound(items, i as int, w - size);
                    assert(old_dp[w as int] == best(items, i as int, w as int));
                    assert(old_dp[w - size] == best(items, i as int, w - size));
                    assert(dp@[w - size] == old_dp[w - size]);
                    assert(i * u32::MAX <= 0xffff_ffff_ffff_ffff * u32::MAX);
                }
                let include_value: u128 = dp[w - size] + weight;
                if include_value > dp[w] {
                    dp[w] = include_value;
                    set_bit(&mut row, w);
                }
            }
            proof {
                assert forall|x: int| 0 <= x <= cap implies #[trigger] dp@[x] == best(
                    items,
                    i + 1,
                    x,
                ) by {
                    if x < w {
                        assert(dp@[x] == old_dp[x]);
                    }
                }
            }
            keep.push(row);
            i = i + 1;
        }
        // Trace back: walk items in reverse, consulting their bit rows to
        // decide whether they were selected at the remaining capacity.
        let mut selected: Vec<bool> = vec![false; n];
        let mut w: usize = cap;
        proof {
            assert(selected@.skip(n as int) =~= Seq::empty());
            law_chosen_fit_and_are_best(items, n as int, cap as int);
            assert(chosen(items, n as int, cap as int) + selected@.skip(n as int) =~= chosen(
                items,
                n as int,
                cap as int,
            ));
        }
        while i > 0
            invariant
                n == bids@.len(),
                items == item_views(bids@),
                i <= n,
                w <= cap,
                row_words == cap / 64 + 1,
                keep@.len() == n,
                selected@.len() == n,
                forall|j: int| 0 <= j < n ==> (#[trigger] keep@[j])@.len() == row_words,
                forall|j: int, w: int|
                    0 <= j < n && 0 <= w <= cap ==> #[trigger] bit_of(keep@[j]@, w) == takes(
                        items,
                        j,
                        w,
                    ),
                chosen(items, i as int, w as int) + selected@.skip(i as int) == chosen(
                    items,
                    n as int,
                    cap as int,
                ),
                forall|j: int| 0 <= j < i ==> !(#[trigger] selected@[j]),
            decreases i,
        {
            i = i - 1;
            let ghost before = selected@;
            let ghost w0 = w as int;
            proof {
                assert(items[i as int].chunks == bids@[i as int].1);
                assert(keep@[i as int]@.len() == row_words);
            }
            let bit = test_bit(&keep[i], w);
            if bit {
                selected.set(i, true);
                w = w - bids[i].1 as usize;
            }
            proof {
                assert(before.skip(i + 1) =~= selected@.skip(i + 1));
                let head = chosen(items, i as int, w as int);
                assert(chosen(items, i + 1, w0) =~= head.push(bit));
                assert(head.push(bit) + before.skip(i + 1) =~= head + selected@.skip(i as int));
            }
        }
        proof {
            assert(chosen(items, 0, w as int) + selected@.skip(0) =~= selected@);
            law_chosen_fit_and_are_best(items, n as int, cap as int);
        }
        let mut winners: Vec<AuctionWinner> = Vec::new();
        proof {
            assert(selected@.take(0) =~= Seq::empty());
            assert(views(winners@) =~= Seq::empty());
        }
        while i < n
            invariant
                n == bids@.len(),
                items == item_views(bids@),
                i <= n,
                selected@.len() == n,
                chunks_of(items, selected@) <= total_chunks,
                total_chunks * self.chunk_bytes <= u32::MAX,
                views(winners@) == awards(items, selected@.take(i as int), self.chunk_bytes),
            decreases n - i,
        {
            let ghost before = winners@;
            proof {
                assert(items[i as int].chunks == bids@[i as int].1);
                assert(selected@.take(i + 1).drop_last() =~= selected@.take(i as int));
            }
            if selected[i] {
                let bid = bids[i].0;
                let chunks = bids[i].1;
                proof {
                    lemma_chunks_of_one(items, selected@, i as int);
                    assert(chunks * self.chunk_bytes <= total_chunks * self.chunk_bytes)
                        by (nonlinear_arith)
                        requires
                            chunks <= total_chunks,
                    ;
                }
                winners.push(
                    AuctionWinner { bid, slot_idx: 0, slot_size: chunks * self.chunk_bytes },
                );
                proof {
                    assert(views(winners@) =~= views(before).push(winners@.last()@));
                }
            }
            i = i + 1;
        }
        proof {
            assert(selected@.take(n as int) =~= selected@);
        }
        stable_sort_slice(&mut winners);
        winners
    }
}

/// One selected item takes no more than the whole selection.
proof fn lemma_chunks_of_one(items: Seq<Item>, selected: Seq<bool>, i: int)
    requires
        0 <= i < selected.len(),
        selected[i],
    ensures
        items[i].chunks <= chunks_of(items, selected),
    decreases selected.len(),
{
    if i < selected.len() - 1 {
        lemma_chunks_of_one(items, selected.drop_last(), i);
    }
}

/// The sum of `f` over awards.
spec fn award_sum(ws: Seq<Award>, f: spec_fn(Award) -> nat) -> nat
    decreases ws.len(),
{
    if ws.len() == 0 {
        0
    } else {
        f(ws[0]) + award_sum(ws.drop_first(), f)
    }
}

proof fn lemma_award_sum_push(ws: Seq<Award>, x: Award, f: spec_fn(Award) -> nat)
    ensures
        award_sum(ws.push(x), f) == award_sum(ws, f) + f(x),
    decreases ws.len(),
{
    if ws.len() == 0 {
        assert(ws.push(x).drop_first() =~= Seq::empty());
        assert(award_sum(Seq::<Award>::empty(), f) == 0);
    } else {
        assert(ws.push(x).drop_first() =~= ws.drop_first().push(x));
        lemma_award_sum_push(ws.drop_first(), x, f);
    }
}

proof fn lemma_award_sum_placed(x: Award, ws: Seq<Award>, f: spec_fn(Award) -> nat)
    ensures
        award_sum(placed::<AuctionWinner>(x, ws), f) == f(x) + award_sum(ws, f),
    decreases ws.len(),
{
    let r = placed::<AuctionWinner>(x, ws);
    if ws.len() == 0 {
        assert(r.drop_first() =~= ws);
    } else if AuctionWinner::ranks_le(x, ws[0]) {
        assert(r.drop_first() =~= ws);
    } else {
        assert(r.drop_first() =~= placed::<AuctionWinner>(x, ws.drop_first()));
        lemma_award_sum_placed(x, ws.drop_first(), f);
    }
}

proof fn lemma_award_sum_sorted(ws: Seq<Award>, f: spec_fn(Award) -> nat)
    ensures
        award_sum(sorted::<AuctionWinner>(ws), f) == award_sum(ws, f),
    decreases ws.len(),
{
    if ws.len() > 0 {
        lemma_award_sum_sorted(ws.drop_first(), f);
        lemma_award_sum_placed(ws[0], sorted::<AuctionWinner>(ws.drop_first()), f);
    }
}

proof fn lemma_offset_is_sum(ws: Seq<Award>, n: int)
    requires
        0 <= n <= ws.len(),
    ensures
        offset(ws, n) == award_sum(ws.take(n), |a: Award| a.slot_size as nat),
    decreases n,
{
    let f = |a: Award| a.slot_size as nat;
    if n > 0 {
        lemma_offset_is_sum(ws, n - 1);
        assert(ws.take(n) =~= ws.take(n - 1).push(ws[n - 1]));
        lemma_award_sum_push(ws.take(n - 1), ws[n - 1], f);
    } else {
        assert(ws.take(0) =~= Seq::empty());
    }
}

proof fn lemma_offset_monotone(ws: Seq<Award>, m: int, n: int)
    requires
        m <= n,
    ensures
        offset(ws, m) <= offset(ws, n),
    decreases n - m,
{
    if m < n {
        lemma_offset_monotone(ws, m, n - 1);
    }
}

/// The awards for a selection add up to its chunks and its weight.
proof fn lemma_awards_add_up(items: Seq<Item>, selected: Seq<bool>, chunk: u32)
    requires
        chunks_of(items, selected) * chunk <= u32::MAX,
    ensures
        award_sum(awards(items, selected, chunk), |a: Award| a.slot_size as nat) == chunks_of(
            items,
            selected,
        ) * chunk,
        award_sum(awards(items, selected, chunk), |a: Award| a.bid.weight as nat) == weight_of(
            items,
            selected,
        ),
    decreases selected.len(),
{
    let size = |a: Award| a.slot_size as nat;
    let weight = |a: Award| a.bid.weight as nat;
    if selected.len() > 0 {
        let before = selected.drop_last();
        let item = items[selected.len() - 1];
        let c = chunks_of(items, before);
        assert((c + item.chunks) * chunk == c * chunk + item.chunks * chunk) by (nonlinear_arith);
        assert(0 <= c * chunk) by (nonlinear_arith);
        assert(0 <= item.chunks * chunk) by (nonlinear_arith);
        lemma_awards_add_up(items, before, chunk);
        if selected.last() {
            let a = Award {
                bid: item.bid,
                slot_idx: 0,
                slot_size: (item.chunks * chunk) as u32,
            };
            lemma_award_sum_push(awards(items, before, chunk), a, size);
            lemma_award_sum_push(awards(items, before, chunk), a, weight);
        }
    } else {
        assert(0 * chunk == 0);
    }
}

/// The slots of the winners of a knapsack fit in its chunks.
proof fn lemma_winners_fit(items: Seq<Item>, cap: int, chunk: u32)
    requires
        0 <= cap,
        cap * chunk <= u32::MAX,
    ensures
        offset(
            knapsack_winners(items, cap, chunk),
            knapsack_winners(items, cap, chunk).len() as int,
        ) <= cap * chunk,
        award_sum(knapsack_winners(items, cap, chunk), |a: Award| a.bid.weight as nat) == best(
            items,
            items.len() as int,
            cap,
        ),
{
    let size = |a: Award| a.slot_size as nat;
    let weight = |a: Award| a.bid.weight as nat;
    let sel = chosen(items, items.len() as int, cap);
    let ws = awards(items, sel, chunk);
    let sorted_ws = knapsack_winners(items, cap, chunk);
    law_chosen_fit_and_are_best(items, items.len() as int, cap);
    let c = chunks_of(items, sel);
    assert(c * chunk <= cap * chunk) by (nonlinear_arith)
        requires
            c <= cap,
    ;
    lemma_awards_add_up(items, sel, chunk);
    lemma_award_sum_sorted(ws, size);
    lemma_award_sum_sorted(ws, weight);
    lemma_offset_is_sum(sorted_ws, sorted_ws.len() as int);
    assert(sorted_ws.take(sorted_ws.len() as int) =~= sorted_ws);
}

impl AuctionEngine {
    /// Pick the winners among `bids` and give each a slot.
    pub fn run_auction(&self, bids: &[AuctionData]) -> (r: Vec<AuctionWinner>)
        requires
            bids@.len() > 0 ==> self.chunk_bytes > 0,
        ensures
            views(r@) == auction(
                views(bids@),
                self.total_bandwidth,
                self.min_message_size,
                self.chunk_bytes,
            ),
    {
        if bids.len() == 0 {
            let none: Vec<AuctionWinner> = Vec::new();
            proof {
                assert(views(none@) =~= Seq::empty());
            }
            return none;
        }
        let total_chunks: u32 = self.total_bandwidth / self.chunk_bytes;
        proof {
            let b = self.total_bandwidth as int;
            let c = self.chunk_bytes as int;
            if b < c {
                vstd::arithmetic::div_mod::lemma_basic_div(b, c);
            } else {
                vstd::arithmetic::div_mod::lemma_div_non_zero(b, c);
            }
            vstd::arithmetic::div_mod::lemma_fundamental_div_mod(b, c);
            vstd::arithmetic::mul::lemma_mul_is_commutative(b / c, c);
        }
        if total_chunks == 0 {
            let none: Vec<AuctionWinner> = Vec::new();
            proof {
                assert(views(none@) =~= Seq::empty());
            }
            return none;
        }
        // Filter to valid bids, recording each one's quantized chunk count.
        let ghost all = views(bids@);
        let mut valid: Vec<(AuctionData, u32)> = Vec::new();
        let mut i: usize = 0;
        proof {
            assert(all.take(0) =~= Seq::empty());
            assert(item_views(valid@) =~= Seq::empty());
        }
        while i < bids.len()
            invariant
                i <= bids@.len(),
                all == views(bids@),
                self.chunk_bytes > 0,
                total_chunks == self.total_bandwidth / self.chunk_bytes,
                item_views(valid@) == eligible(
                    all.take(i as int),
                    self.total_bandwidth,
                    self.min_message_size,
                    self.chunk_bytes,
                ),
            decreases bids@.len() - i,
        {
            let mut b: AuctionData = bids[i];
            let ghost before = valid@;
            proof {
                assert(all.take(i + 1).drop_last() =~= all.take(i as int));
                assert(all.take(i + 1).last() == bids@[i as int]@);
            }
            if b.size < self.min_message_size {
                b.size = self.min_message_size;
            }
            proof {
                assert(b@ == bids@[i as int]@.raised(self.min_message_size));
            }
            i = i + 1;
            if b.weight == 0 || b.size > self.total_bandwidth {
                continue;
            }
            let chunks = div_ceil(b.size, self.chunk_bytes);
            if chunks > total_chunks {
                continue;
            }
            valid.push((b, chunks));
            proof {
                assert(item_views(valid@) =~= item_views(before).push(
                    Item { bid: b@, chunks: chunks as nat },
                ));
            }
        }
        proof {
            assert(all.take(all.len() as int) =~= all);
        }
        let mut winners = self.knapsack(&valid, total_chunks);
        let ghost items = item_views(valid@);
        let ghost ws = views(winners@);
        proof {
            lemma_winners_fit(items, total_chunks as int, self.chunk_bytes);
        }
        let mut cur: u32 = 0;
        let mut k: usize = 0;
        while k < winners.len()
            invariant
                k <= winners@.len(),
                ws.len() == winners@.len(),
                offset(ws, ws.len() as int) <= u32::MAX,
                cur == offset(ws, k as int),
                forall|j: int|
                    0 <= j < k ==> (#[trigger] winners@[j])@ == laid_end_to_end(ws)[j],
                forall|j: int| k <= j < ws.len() ==> (#[trigger] winners@[j])@ == ws[j],
            decreases winners@.len() - k,
        {
            let w: AuctionWinner = winners[k];
            proof {
                lemma_offset_monotone(ws, k + 1, ws.len() as int);
                assert(w@ == ws[k as int]);
            }
            winners.set(
                k,
                AuctionWinner { bid: w.bid, slot_idx: cur, slot_size: w.slot_size },
            );
            cur = cur + w.slot_size;
            k = k + 1;
        }
        proof {
            assert(views(winners@) =~= laid_end_to_end(ws));
        }
        winners
    }
}

// ---------------------------------------------------------------------------
// Laws of the auction
// ---------------------------------------------------------------------------

/// The weights of winners added up.
pub open spec fn total_weight(ws: Seq<Award>) -> nat
    decreases ws.len(),
{
    if ws.len() == 0 {
        0
    } else {
        ws[0].bid.weight as nat + total_weight(ws.drop_first())
    }
}

proof fn lemma_total_weight(ws: Seq<Award>)
    ensures
        total_weight(laid_end_to_end(ws)) == award_sum(ws, |a: Award| a.bid.weight as nat),
{
    lemma_total_weight_by(laid_end_to_end(ws), ws);
}

proof fn lemma_total_weight_by(a: Seq<Award>, b: Seq<Award>)
    requires
        a.len() == b.len(),
        forall|i: int| 0 <= i < a.len() ==> (#[trigger] a[i]).bid == b[i].bid,
    ensures
        total_weight(a) == award_sum(b, |w: Award| w.bid.weight as nat),
    decreases a.len(),
{
    if a.len() > 0 {
        assert forall|i: int| 0 <= i < a.len() - 1 implies (#[trigger] a.drop_first()[i]).bid
            == b.drop_first()[i].bid by {
            assert(a.drop_first()[i] == a[i + 1]);
        }
        lemma_total_weight_by(a.drop_first(), b.drop_first());
        assert(a[0].bid == b[0].bid);
    }
}

/// The auction is optimal: no set of eligible bids that fits in the bandwidth,
/// in whole chunks, outweighs the winners. A bandwidth of less than one chunk
/// has no winners, even where a bid asks for no bytes at all.
pub proof fn law_auction_is_optimal(
    bids: Seq<Bid>,
    bandwidth: u32,
    min: u32,
    chunk: u32,
    selected: Seq<bool>,
)
    requires
        chunk > 0,
        selected.len() == eligible(bids, bandwidth, min, chunk).len(),
        chunks_of(eligible(bids, bandwidth, min, chunk), selected) <= bandwidth / chunk,
        bandwidth >= chunk || selected.len() == 0,
    ensures
        weight_of(eligible(bids, bandwidth, min, chunk), selected) <= total_weight(
            auction(bids, bandwidth, min, chunk),
        ),
{
    let items = eligible(bids, bandwidth, min, chunk);
    let cap = (bandwidth / chunk) as int;
    vstd::arithmetic::div_mod::lemma_fundamental_div_mod(bandwidth as int, chunk as int);
    vstd::arithmetic::mul::lemma_mul_is_commutative(cap, chunk as int);
    law_best_is_optimal(items, selected, cap);
    lemma_winners_fit(items, cap, chunk);
    if bids.len() > 0 {
        lemma_total_weight(knapsack_winners(items, cap, chunk));
    }
}

/// The slots of an auction add up to no more than the bandwidth.
pub proof fn lemma_auction_fits(bids: Seq<Bid>, bandwidth: u32, min: u32, chunk: u32)
    requires
        chunk > 0,
    ensures
        offset(
            auction(bids, bandwidth, min, chunk),
            auction(bids, bandwidth, min, chunk).len() as int,
        ) <= bandwidth,
{
    if bids.len() > 0 && bandwidth >= chunk {
        let items = eligible(bids, bandwidth, min, chunk);
        let cap = (bandwidth / chunk) as int;
        vstd::arithmetic::div_mod::lemma_fundamental_div_mod(bandwidth as int, chunk as int);
        vstd::arithmetic::mul::lemma_mul_is_commutative(cap, chunk as int);
        lemma_winners_fit(items, cap, chunk);
        let ws = knapsack_winners(items, cap, chunk);
        lemma_laid_offset(ws, ws.len() as int);
    }
}

proof fn lemma_laid_offset(ws: Seq<Award>, n: int)
    requires
        0 <= n <= ws.len(),
    ensures
        offset(laid_end_to_end(ws), n) == offset(ws, n),
    decreases n,
{
    if n > 0 {
        lemma_laid_offset(ws, n - 1);
    }
}

/// Slots do not overlap, follow the order of the winners, and stay inside what
/// is allocated, which stays inside the bandwidth.
pub proof fn law_slots_are_disjoint(bids: Seq<Bid>, bandwidth: u32, min: u32, chunk: u32)
    requires
        chunk > 0,
    ensures
        ({
            let ws = auction(bids, bandwidth, min, chunk);
            let total = offset(ws, ws.len() as int);
            &&& total <= bandwidth
            &&& forall|i: int|
                0 <= i < ws.len() ==> (#[trigger] ws[i]).slot_idx + ws[i].slot_size <= total
            &&& forall|i: int, j: int|
                0 <= i < j < ws.len() ==> (#[trigger] ws[i]).slot_idx + ws[i].slot_size <= (
                #[trigger] ws[j]).slot_idx
        }),
{
    let out = auction(bids, bandwidth, min, chunk);
    if bids.len() > 0 && bandwidth >= chunk {
        let items = eligible(bids, bandwidth, min, chunk);
        let cap = (bandwidth / chunk) as int;
        vstd::arithmetic::div_mod::lemma_fundamental_div_mod(bandwidth as int, chunk as int);
        vstd::arithmetic::mul::lemma_mul_is_commutative(cap, chunk as int);
        lemma_winners_fit(items, cap, chunk);
        let ws = knapsack_winners(items, cap, chunk);
        lemma_laid_offset(ws, ws.len() as int);
        assert forall|i: int| 0 <= i < out.len() implies (#[trigger] out[i]).slot_idx
            + out[i].slot_size <= offset(out, out.len() as int) by {
            lemma_offset_monotone(ws, i + 1, ws.len() as int);
        }
        assert forall|i: int, j: int| 0 <= i < j < out.len() implies (#[trigger] out[i]).slot_idx
            + out[i].slot_size <= (#[trigger] out[j]).slot_idx by {
            lemma_offset_monotone(ws, i + 1, j);
            lemma_offset_monotone(ws, j, ws.len() as int);
        }
    }
}

/// The positions of the bids behind the eligible items, in ascending order: each
/// item is its bid, raised to the minimum size, of positive weight, and takes as
/// many whole chunks as its size needs.
proof fn lemma_eligible(bids: Seq<Bid>, bandwidth: u32, min: u32, chunk: u32) -> (at: Seq<int>)
    ensures
        at.len() == eligible(bids, bandwidth, min, chunk).len(),
        forall|i: int, j: int| 0 <= i < j < at.len() ==> #[trigger] at[i] < #[trigger] at[j],
        forall|i: int|
            0 <= i < at.len() ==> {
                let item = eligible(bids, bandwidth, min, chunk)[i];
                &&& 0 <= #[trigger] at[i] < bids.len()
                &&& item.bid == bids[at[i]].raised(min)
                &&& bids[at[i]].weight > 0
                &&& item.chunks == chunks_for(bids[at[i]].raised(min).size, chunk) as nat
                &&& chunks_for(bids[at[i]].raised(min).size, chunk) <= bandwidth / chunk
            },
    decreases bids.len(),
{
    if bids.len() == 0 {
        Seq::empty()
    } else {
        let before = eligible(bids.drop_last(), bandwidth, min, chunk);
        let at = lemma_eligible(bids.drop_last(), bandwidth, min, chunk);
        if eligible(bids, bandwidth, min, chunk).len() == before.len() {
            at
        } else {
            at.push(bids.len() - 1)
        }
    }
}

/// The positions of the items behind the awards for a selection, in ascending
/// order.
proof fn lemma_award_from(items: Seq<Item>, selected: Seq<bool>, chunk: u32) -> (at: Seq<int>)
    ensures
        at.len() == awards(items, selected, chunk).len(),
        forall|i: int, j: int| 0 <= i < j < at.len() ==> #[trigger] at[i] < #[trigger] at[j],
        forall|i: int|
            0 <= i < at.len() ==> {
                let award = awards(items, selected, chunk)[i];
                &&& 0 <= #[trigger] at[i] < selected.len()
                &&& award.bid == items[at[i]].bid
                &&& award.slot_size == (items[at[i]].chunks * chunk) as u32
            },
    decreases selected.len(),
{
    if selected.len() == 0 {
        Seq::empty()
    } else {
        let at = lemma_award_from(items, selected.drop_last(), chunk);
        if selected.last() {
            at.push(selected.len() - 1)
        } else {
            at
        }
    }
}

/// Winners come in the order of their hashes.
pub proof fn law_winners_are_in_hash_order(
    bids: Seq<Bid>,
    bandwidth: u32,
    min: u32,
    chunk: u32,
    i: int,
    j: int,
)
    requires
        chunk > 0,
        0 <= i <= j < auction(bids, bandwidth, min, chunk).len(),
    ensures
        bytes_le(
            auction(bids, bandwidth, min, chunk)[i].bid.message_hash,
            auction(bids, bandwidth, min, chunk)[j].bid.message_hash,
        ),
{
    let items = eligible(bids, bandwidth, min, chunk);
    let ws = awards(items, chosen(items, items.len() as int, (bandwidth / chunk) as int), chunk);
    law_sorting_orders::<AuctionWinner>(ws);
    let out = sorted::<AuctionWinner>(ws);
    if i == j {
        AuctionWinner::lemma_total(out[i], out[i]);
    } else {
        assert(AuctionWinner::ranks_le(out[i], out[j]));
    }
}

/// A bid that has an auction to itself wins the first slot, if it can win at all.
pub proof fn law_single_bid_wins(b: Bid, bandwidth: u32, min: u32, chunk: u32)
    requires
        chunk > 0,
        bandwidth >= chunk,
        b.weight > 0,
        chunks_for(b.raised(min).size, chunk) * chunk <= bandwidth,
    ensures
        auction(seq![b], bandwidth, min, chunk) == seq![
            Award {
                bid: b.raised(min),
                slot_idx: 0,
                slot_size: (chunks_for(b.raised(min).size, chunk) * chunk) as u32,
            },
        ],
{
    let r = b.raised(min);
    let c = chunk as int;
    let k = chunks_for(r.size, chunk);
    let cap = (bandwidth / chunk) as int;
    let n = r.size + c - 1;
    vstd::arithmetic::div_mod::lemma_fundamental_div_mod(n, c);
    vstd::arithmetic::mul::lemma_mul_is_commutative(k, c);
    vstd::arithmetic::div_mod::lemma_div_pos_is_pos(n, c);
    vstd::arithmetic::div_mod::lemma_fundamental_div_mod(bandwidth as int, c);
    vstd::arithmetic::mul::lemma_mul_is_commutative(cap, c);
    if k > cap {
        assert(k * c >= cap * c + c) by (nonlinear_arith)
            requires
                k >= cap + 1,
                c > 0,
        ;
    }
    let bids = seq![b];
    assert(bids.drop_last() =~= Seq::empty());
    assert(eligible(bids.drop_last(), bandwidth, min, chunk) =~= Seq::empty());
    let items = eligible(bids, bandwidth, min, chunk);
    assert(items =~= seq![Item { bid: r, chunks: k as nat }]);
    assert(best(items, 0, cap) == 0 && best(items, 0, cap - k) == 0);
    assert(takes(items, 0, cap));
    let sel = chosen(items, 1, cap);
    assert(chosen(items, 0, cap - k) =~= Seq::empty());
    assert(sel =~= seq![true]);
    let one = Award { bid: r, slot_idx: 0, slot_size: (k * chunk) as u32 };
    assert(sel.drop_last() =~= Seq::empty());
    assert(awards(items, sel.drop_last(), chunk) =~= Seq::empty());
    let ws = awards(items, sel, chunk);
    assert(ws =~= seq![one]);
    assert(ws.drop_first() =~= Seq::empty());
    assert(sorted::<AuctionWinner>(ws.drop_first()) =~= Seq::empty());
    assert(sorted::<AuctionWinner>(ws) =~= seq![one]);
    assert(laid_end_to_end(seq![one]) =~= seq![one]);
}

/// Winner `i` is the bid at position `at[i]`, of positive weight and raised to
/// the minimum size, and no bid wins twice.
pub open spec fn won_by(ws: Seq<Award>, bids: Seq<Bid>, min: u32, at: Seq<int>) -> bool {
    &&& at.len() == ws.len()
    &&& at.no_duplicates()
    &&& forall|i: int|
        0 <= i < at.len() ==> {
            &&& 0 <= #[trigger] at[i] < bids.len()
            &&& bids[at[i]].weight > 0
            &&& ws[i].bid == bids[at[i]].raised(min)
        }
}

/// Every winner is a bid of positive weight, raised to the minimum size, a
/// different bid for each winner, and its slot is the smallest whole number of
/// chunks that holds it.
pub proof fn law_winners_are_bids(bids: Seq<Bid>, bandwidth: u32, min: u32, chunk: u32)
    requires
        chunk > 0,
    ensures
        exists|at: Seq<int>| #[trigger]
            won_by(auction(bids, bandwidth, min, chunk), bids, min, at),
        forall|i: int|
            0 <= i < auction(bids, bandwidth, min, chunk).len() ==> {
                let w = #[trigger] auction(bids, bandwidth, min, chunk)[i];
                &&& w.slot_size == chunks_for(w.bid.size, chunk) * chunk
                &&& w.bid.size <= w.slot_size < w.bid.size + chunk
            },
{
    let out = auction(bids, bandwidth, min, chunk);
    if bids.len() == 0 || bandwidth < chunk {
        assert(won_by(out, bids, min, Seq::empty()));
    } else {
        let items = eligible(bids, bandwidth, min, chunk);
        let cap = (bandwidth / chunk) as int;
        let sel = chosen(items, items.len() as int, cap);
        let ws = awards(items, sel, chunk);
        law_chosen_fit_and_are_best(items, items.len() as int, cap);
        let a = lemma_sorted_positions::<AuctionWinner>(ws);
        let b = lemma_award_from(items, sel, chunk);
        let e = lemma_eligible(bids, bandwidth, min, chunk);
        let at = Seq::new(out.len(), |i: int| e[b[a[i]]]);
        assert forall|i: int, j: int| 0 <= i < at.len() && 0 <= j < at.len() && i != j implies at[i]
            != at[j] by {
            assert(a[i] != a[j]);
            assert(0 <= a[i] < b.len() && 0 <= a[j] < b.len());
            if a[i] < a[j] {
                assert(b[a[i]] < b[a[j]]);
                assert(e[b[a[i]]] < e[b[a[j]]]);
            } else {
                assert(b[a[j]] < b[a[i]]);
                assert(e[b[a[j]]] < e[b[a[i]]]);
            }
        }
        let c = chunk as int;
        vstd::arithmetic::div_mod::lemma_fundamental_div_mod(bandwidth as int, c);
        vstd::arithmetic::mul::lemma_mul_is_commutative(cap, c);
        assert forall|i: int| 0 <= i < out.len() implies {
            let w = #[trigger] out[i];
            &&& 0 <= at[i] < bids.len()
            &&& bids[at[i]].weight > 0
            &&& w.bid == bids[at[i]].raised(min)
            &&& w.slot_size == chunks_for(w.bid.size, chunk) * chunk
            &&& w.bid.size <= w.slot_size < w.bid.size + chunk
        } by {
            let w = out[i];
            assert(0 <= a[i] < ws.len());
            assert(0 <= b[a[i]] < items.len());
            assert(0 <= e[b[a[i]]] < bids.len());
            let n = w.bid.size + c - 1;
            vstd::arithmetic::div_mod::lemma_fundamental_div_mod(n, c);
            vstd::arithmetic::mul::lemma_mul_is_commutative(n / c, c);
            vstd::arithmetic::div_mod::lemma_div_pos_is_pos(n, c);
            assert((n / c) * c <= cap * c) by (nonlinear_arith)
                requires
                    n / c <= cap,
                    c > 0,
            ;
        }
        assert(won_by(out, bids, min, at)) by {
            assert forall|i: int| 0 <= i < at.len() implies {
                &&& 0 <= #[trigger] at[i] < bids.len()
                &&& bids[at[i]].weight > 0
                &&& out[i].bid == bids[at[i]].raised(min)
            } by {
                assert(out[i].bid == bids[at[i]].raised(min));
            }
        }
    }
}

} // verus!
