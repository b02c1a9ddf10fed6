//! Encode payloads into an IBLT and decode payloads from the recovered
//! field-element vector. Each payload becomes one IBLT entry; multiple
//! payloads aggregate into a single IBLT via field-additive composition and
//! peel out atomically at the receiver.
//!
//! Payload framing inside one IBLT entry:
//!
//! ```text
//!   key   = PACK_BYTES random bytes (uniqueness; bucket-placement input)
//!   V[0..ξ-1] = length-prefixed payload, zero-padded
//!
//!   V[0][0..4] = (length as u32, big-endian)
//!   V[0][4..PACK_BYTES] || V[1] || … || V[ξ-1]  =  payload (length B) || zeros
//! ```
//!
//! `ξ = ⌈(max_payload_bytes + 4) / PACK_BYTES⌉` covers any payload up to
//! `max_payload_bytes`. Usable bytes per insert = `ξ · PACK_BYTES − 4`.

use vstd::prelude::*;

use crate::auction::iblt::{
    byte_views, empty_table, lemma_table_fits, packed, table_fits, unpack_all, unpacked, IbltError,
    IbltVector, Packed, RecoveredEntry, Table, KEY_BYTES,
};
use crate::auction::iblt_laws::{all_fit, law_recovery_is_sound};
use crate::bytes::{append_slice, be_nat, be_seq, lemma_le_seq_len, read_be, to_vec, write_be};
use crate::crypto::fields::PACK_BYTES;
use crate::randomness::KeySource;
use crate::sorting::views;

verus! {

/// Bytes of the length prefix of a framed payload.
pub const LENGTH_PREFIX_BYTES: usize = 4;

#[derive(Debug)]
pub struct IbltMsgParams {
    /// Expected number of payloads per round. Determines IBLT bucket count.
    pub estimated_messages: u32,
    /// Maximum payload bytes per insert. Determines ξ.
    pub max_payload_bytes: usize,
}

#[derive(Clone, Copy, Debug, PartialEq, Eq, Structural)]
pub enum IbltMsgError {
    PayloadTooLarge { got: usize, usable: usize },
    BadFraming { claimed: usize, capacity: usize },
    Iblt(IbltError),
}

// ---------------------------------------------------------------------------
// Model
// ---------------------------------------------------------------------------

/// `⌈(max + 4) / 7⌉`.
pub open spec fn xi_for(max: nat) -> nat {
    (max + 10) / 7
}

/// A frame for payloads of up to `max` bytes is no longer than a `usize`
/// counts.
pub open spec fn frame_fits(max: nat) -> bool {
    7 * xi_for(max) <= usize::MAX
}

/// Payload bytes that a frame has room for.
pub open spec fn usable(max: nat) -> nat {
    (7 * xi_for(max) - 4) as nat
}

/// `payload` behind its length, filled up with zeros to `n` bytes.
pub open spec fn framed(payload: Seq<u8>, n: nat) -> Seq<u8> {
    be_seq(payload.len(), 4) + payload + Seq::new(
        (n - 4 - payload.len()) as nat,
        |i: int| 0u8,
    )
}

/// `bytes` cut into pieces of seven.
pub open spec fn sevens(bytes: Seq<u8>) -> Seq<Seq<u8>> {
    Seq::new(bytes.len() / 7, |i: int| bytes.subrange(7 * i, 7 * i + 7))
}

/// The values that carry a payload of at most `usable(max)` bytes.
pub open spec fn payload_values(payload: Seq<u8>, max: nat) -> Seq<Seq<u8>> {
    sevens(framed(payload, 7 * xi_for(max)))
}

/// Byte strings one after the other.
pub open spec fn joined(vs: Seq<Seq<u8>>) -> Seq<u8>
    decreases vs.len(),
{
    if vs.len() == 0 {
        Seq::empty()
    } else {
        joined(vs.drop_last()) + vs.last()
    }
}

/// The payload that a frame holds.
pub open spec fn unframed(flat: Seq<u8>, max: nat) -> Result<Seq<u8>, IbltMsgError> {
    let length = be_nat(flat.take(4));
    if length > usable(max) {
        Err(IbltMsgError::BadFraming { claimed: length as usize, capacity: usable(max) as usize })
    } else {
        Ok(flat.subrange(4, 4 + length as int))
    }
}

/// The payloads of recovered entries, or the first framing error.
pub open spec fn payloads_of(es: Seq<Packed>, max: nat) -> Result<Seq<Seq<u8>>, IbltMsgError>
    decreases es.len(),
{
    if es.len() == 0 {
        Ok(Seq::empty())
    } else {
        match payloads_of(es.drop_last(), max) {
            Err(e) => Err(e),
            Ok(before) => match unframed(joined(unpacked(es.last()).values), max) {
                Err(e) => Err(e),
                Ok(p) => Ok(before.push(p)),
            },
        }
    }
}

impl IbltMsgParams {
    /// The table for these parameters and its length are countable.
    pub open spec fn ok(self) -> bool {
        &&& frame_fits(self.max_payload_bytes as nat)
        &&& table_fits(self.estimated_messages, xi_for(self.max_payload_bytes as nat))
    }

    /// The empty table for these parameters.
    pub open spec fn blank(self) -> Table {
        empty_table(self.estimated_messages, xi_for(self.max_payload_bytes as nat) as usize)
    }

    /// The table that carries `payload` under `key`.
    pub open spec fn loaded(self, payload: Seq<u8>, key: Seq<u8>) -> Table {
        self.blank().inserted(packed(key, payload_values(payload, self.max_payload_bytes as nat)))
    }

    /// The payloads that a recovered vector carries.
    pub open spec fn payloads(self, recovered: Seq<u64>) -> Result<Seq<Seq<u8>>, IbltMsgError> {
        match self.blank().decoded(recovered) {
            Err(e) => Err(IbltMsgError::Iblt(e)),
            Ok(t) => match t.recovered() {
                Err(e) => Err(IbltMsgError::Iblt(e)),
                Ok(es) => payloads_of(es, self.max_payload_bytes as nat),
            },
        }
    }
}

// ---------------------------------------------------------------------------
// Parameters
// ---------------------------------------------------------------------------

impl Clone for IbltMsgParams {
    fn clone(&self) -> (r: Self)
        ensures
            r == *self,
    {
        IbltMsgParams {
            estimated_messages: self.estimated_messages,
            max_payload_bytes: self.max_payload_bytes,
        }
    }
}

impl IbltMsgParams {
    /// Field-element slots per cell.
    pub fn xi(&self) -> (r: usize)
        requires
            self.max_payload_bytes + LENGTH_PREFIX_BYTES <= usize::MAX,
        ensures
            r == xi_for(self.max_payload_bytes as nat),
            r > 0,
    {
        (self.max_payload_bytes + LENGTH_PREFIX_BYTES - 1) / PACK_BYTES + 1
    }

    /// Usable payload bytes per insert.
    pub fn usable_payload_bytes(&self) -> (r: usize)
        requires
            frame_fits(self.max_payload_bytes as nat),
        ensures
            r == usable(self.max_payload_bytes as nat),
            r >= self.max_payload_bytes,
    {
        self.xi() * PACK_BYTES - LENGTH_PREFIX_BYTES
    }

    /// Construct an empty IBLT matching these params.
    pub fn empty_iblt(&self) -> (r: IbltVector)
        requires
            self.ok(),
        ensures
            r@ == self.blank(),
            r@.laid_out(),
            r@.shape_ok(),
    {
        let xi = self.xi();
        proof {
            lemma_table_fits(self.estimated_messages, xi);
        }
        IbltVector::new_with_xi(self.estimated_messages, xi)
    }

    /// Length of the encoded field-element vector for one round.
    pub fn encoded_len(&self) -> (r: usize)
        requires
            self.ok(),
        ensures
            r == self.blank().elements().len(),
    {
        let xi = self.xi();
        proof {
            lemma_table_fits(self.estimated_messages, xi);
            let t = self.blank();
            assert(t.elements().len() == 2 * t.cells() + t.values.len());
        }
        crate::auction::iblt::iblt_field_element_count(self.estimated_messages, xi)
    }
}

// ---------------------------------------------------------------------------
// Encoding
// ---------------------------------------------------------------------------

/// Encode one payload under the given key.
pub fn encode_payload_with_key(
    params: &IbltMsgParams,
    payload: &[u8],
    key: &[u8; KEY_BYTES],
) -> (r: Result<Vec<u64>, IbltMsgError>)
    requires
        frame_fits(params.max_payload_bytes as nat),
        payload@.len() <= usable(params.max_payload_bytes as nat) ==> params.ok(),
    ensures
        if payload@.len() > usable(params.max_payload_bytes as nat) {
            r == Err::<Vec<u64>, IbltMsgError>(
                IbltMsgError::PayloadTooLarge {
                    got: payload@.len() as usize,
                    usable: usable(params.max_payload_bytes as nat) as usize,
                },
            )
        } else {
            r is Ok && r->Ok_0@ == params.loaded(payload@, key@).elements()
        },
{
    let usable_bytes = params.usable_payload_bytes();
    if payload.len() > usable_bytes {
        return Err(IbltMsgError::PayloadTooLarge { got: payload.len(), usable: usable_bytes });
    }
    let ghost max = params.max_payload_bytes as nat;
    let xi = params.xi();
    let cell_bytes: usize = xi * PACK_BYTES;
    let mut frame = write_be(payload.len() as u64, LENGTH_PREFIX_BYTES);
    append_slice(&mut frame, payload);
    let ghost head = frame@;
    while frame.len() < cell_bytes
        invariant
            head.len() <= frame@.len() <= cell_bytes,
            frame@ == head + Seq::new((frame@.len() - head.len()) as nat, |i: int| 0u8),
        decreases cell_bytes - frame@.len(),
    {
        frame.push(0);
        proof {
            assert(frame@ =~= head + Seq::new((frame@.len() - head.len()) as nat, |i: int| 0u8));
        }
    }
    proof {
        assert(frame@ =~= framed(payload@, 7 * xi_for(max)));
    }
    let mut iblt = params.empty_iblt();
    let mut slices: Vec<&[u8]> = Vec::new();
    let mut i: usize = 0;
    while i < xi
        invariant
            i <= xi,
            frame@.len() == 7 * xi,
            frame@.len() <= usize::MAX,
            slices@.len() == i,
            forall|k: int|
                0 <= k < i ==> (#[trigger] slices@[k])@ == frame@.subrange(7 * k, 7 * k + 7),
        decreases xi - i,
    {
        slices.push(&frame[i * PACK_BYTES..i * PACK_BYTES + PACK_BYTES]);
        i = i + 1;
    }
    proof {
        let vs = payload_values(payload@, max);
        assert(byte_views(slices@) =~= vs);
        assert forall|k: int| 0 <= k < vs.len() implies (#[trigger] vs[k]).len() <= PACK_BYTES by {}
        lemma_none_too_large(vs);
        packed(key@, vs).lemma_has_room(iblt@);
    }
    match iblt.insert(key, &slices) {
        Ok(_) => {},
        Err(e) => return Err(IbltMsgError::Iblt(e)),
    }
    Ok(iblt.encode_as_field_elements())
}

proof fn lemma_none_too_large(vs: Seq<Seq<u8>>)
    requires
        forall|k: int| 0 <= k < vs.len() ==> (#[trigger] vs[k]).len() <= PACK_BYTES,
    ensures
        crate::auction::iblt::first_too_large(vs) is None,
    decreases vs.len(),
{
    if vs.len() > 0 {
        let rest = vs.drop_first();
        assert forall|k: int| 0 <= k < rest.len() implies (#[trigger] rest[k]).len()
            <= PACK_BYTES by {
            assert(rest[k] == vs[k + 1]);
        }
        lemma_none_too_large(rest);
    }
}

/// Encode one payload into a fresh per-client IBLT and return its
/// field-element representation, ready for the field-additive primitive.
pub fn encode_payload<R: KeySource>(params: &IbltMsgParams, payload: &[u8], rng: &mut R) -> (r:
    Result<Vec<u64>, IbltMsgError>)
    requires
        frame_fits(params.max_payload_bytes as nat),
        payload@.len() <= usable(params.max_payload_bytes as nat) ==> params.ok(),
    ensures
        if payload@.len() > usable(params.max_payload_bytes as nat) {
            r == Err::<Vec<u64>, IbltMsgError>(
                IbltMsgError::PayloadTooLarge {
                    got: payload@.len() as usize,
                    usable: usable(params.max_payload_bytes as nat) as usize,
                },
            )
        } else {
            &&& r is Ok
            &&& exists|key: Seq<u8>|
                key.len() == KEY_BYTES && r->Ok_0@ == (#[trigger] params.loaded(
                    payload@,
                    key,
                )).elements()
        },
{
    let usable_bytes = params.usable_payload_bytes();
    if payload.len() > usable_bytes {
        return Err(IbltMsgError::PayloadTooLarge { got: payload.len(), usable: usable_bytes });
    }
    let key = rng.draw_key();
    let r = encode_payload_with_key(params, payload, &key);
    proof {
        assert(key@.len() == KEY_BYTES);
        let t = params.loaded(payload@, key@);
    }
    r
}

/// Encode an empty (zero) contribution.
pub fn encode_empty(params: &IbltMsgParams) -> (r: Vec<u64>)
    requires
        params.ok(),
    ensures
        r@ == params.blank().elements(),
{
    params.empty_iblt().encode_as_field_elements()
}

// ---------------------------------------------------------------------------
// Decoding
// ---------------------------------------------------------------------------

/// The payload of a recovered entry.
fn unframe(params: &IbltMsgParams, e: &RecoveredEntry) -> (r: Result<Vec<u8>, IbltMsgError>)
    requires
        frame_fits(params.max_payload_bytes as nat),
        joined(e@.values).len() == 7 * xi_for(params.max_payload_bytes as nat),
    ensures
        match r {
            Ok(p) => unframed(joined(e@.values), params.max_payload_bytes as nat) == Ok::<
                Seq<u8>,
                IbltMsgError,
            >(p@),
            Err(err) => unframed(joined(e@.values), params.max_payload_bytes as nat) == Err::<
                Seq<u8>,
                IbltMsgError,
            >(err),
        },
{
    let mut flat: Vec<u8> = Vec::new();
    let mut i: usize = 0;
    let ghost vs = e@.values;
    proof {
        assert(vs.take(0) =~= Seq::empty());
    }
    while i < e.values.len()
        invariant
            i <= e.values@.len(),
            vs == views(e.values@),
            flat@ == joined(vs.take(i as int)),
        decreases e.values@.len() - i,
    {
        proof {
            assert(vs.take(i + 1).drop_last() =~= vs.take(i as int));
        }
        append_slice(&mut flat, &e.values[i]);
        i = i + 1;
    }
    proof {
        assert(vs.take(i as int) =~= vs);
        crate::bytes::lemma_le_nat_bound(flat@.take(4).reverse());
        crate::bytes::lemma_pow256_values();
        assert(flat@.subrange(0, 4) =~= flat@.take(4));
    }
    let capacity = params.usable_payload_bytes();
    let length = read_be(&flat[0..LENGTH_PREFIX_BYTES]);
    if length > capacity as u64 {
        return Err(IbltMsgError::BadFraming { claimed: length as usize, capacity });
    }
    let n: usize = length as usize;
    Ok(to_vec(&flat[LENGTH_PREFIX_BYTES..LENGTH_PREFIX_BYTES + n]))
}

/// The values of an entry that fits a table join to a whole frame.
pub proof fn lemma_joined_len(e: Packed)
    ensures
        joined(unpacked(e).values).len() == 7 * e.values.len(),
{
    lemma_joined_len_upto(unpacked(e).values, e, e.values.len() as int);
    assert(unpacked(e).values.take(e.values.len() as int) =~= unpacked(e).values);
}

proof fn lemma_joined_len_upto(vs: Seq<Seq<u8>>, e: Packed, n: int)
    requires
        vs == unpacked(e).values,
        0 <= n <= vs.len(),
    ensures
        joined(vs.take(n)).len() == 7 * n,
    decreases n,
{
    if n > 0 {
        lemma_joined_len_upto(vs, e, n - 1);
        assert(vs.take(n).drop_last() =~= vs.take(n - 1));
        lemma_le_seq_len(e.values[n - 1] as nat, PACK_BYTES as nat);
    }
}

/// Decode the recovered field-element vector back into the set of payloads
/// contributed this round.
pub fn decode_round(params: &IbltMsgParams, recovered: &[u64]) -> (r: Result<
    Vec<Vec<u8>>,
    IbltMsgError,
>)
    requires
        params.ok(),
    ensures
        match r {
            Ok(out) => params.payloads(recovered@) == Ok::<Seq<Seq<u8>>, IbltMsgError>(views(out@)),
            Err(e) => params.payloads(recovered@) == Err::<Seq<Seq<u8>>, IbltMsgError>(e),
        },
{
    let mut iblt = params.empty_iblt();
    let ghost max = params.max_payload_bytes as nat;
    match iblt.decode_from_elements(recovered) {
        Ok(_) => {},
        Err(e) => return Err(IbltMsgError::Iblt(e)),
    }
    let entries = match iblt.recover() {
        Ok(entries) => entries,
        Err(e) => return Err(IbltMsgError::Iblt(e)),
    };
    let ghost es = iblt@.recovered()->Ok_0;
    proof {
        law_recovery_is_sound(iblt@);
        assert(views(entries@).len() == unpack_all(es).len());
        assert(es.take(0) =~= Seq::empty());
    }
    let mut out: Vec<Vec<u8>> = Vec::new();
    proof {
        assert(views(out@) =~= Seq::empty());
    }
    let mut i: usize = 0;
    while i < entries.len()
        invariant
            i <= entries@.len(),
            es.len() == entries@.len(),
            views(entries@) == unpack_all(es),
            all_fit(es, xi_for(max)),
            max == params.max_payload_bytes,
            frame_fits(max),
            payloads_of(es.take(i as int), max) == Ok::<Seq<Seq<u8>>, IbltMsgError>(views(out@)),
            params.payloads(recovered@) == payloads_of(es, max),
        decreases entries@.len() - i,
    {
        proof {
            assert(views(entries@)[i as int] == unpack_all(es)[i as int]);
            assert(es[i as int].fits(xi_for(max)));
            lemma_joined_len(es[i as int]);
            assert(es.take(i + 1).drop_last() =~= es.take(i as int));
            assert(es.take(i + 1).last() == es[i as int]);
        }
        let ghost before = out@;
        match unframe(params, &entries[i]) {
            Ok(p) => {
                out.push(p);
                proof {
                    assert(views(out@) =~= views(before).push(p@));
                }
            },
            Err(e) => {
                proof {
                    lemma_first_error(es, i + 1, max);
                }
                return Err(e);
            },
        }
        i = i + 1;
    }
    proof {
        assert(es.take(i as int) =~= es);
    }
    Ok(out)
}

/// A framing error among the first `n` entries is the error of the round.
proof fn lemma_first_error(es: Seq<Packed>, n: int, max: nat)
    requires
        0 <= n <= es.len(),
        payloads_of(es.take(n), max) is Err,
    ensures
        payloads_of(es, max) == payloads_of(es.take(n), max),
    decreases es.len() - n,
{
    if n < es.len() {
        assert(es.take(n + 1).drop_last() =~= es.take(n));
        lemma_first_error(es, n + 1, max);
    } else {
        assert(es.take(n) =~= es);
    }
}

} // verus!
