//! Write payloads into / read payloads out of an XOR-additive message vector
//! at slot offsets allocated by the auction.
//!
//! Pure functions over `&mut [u8]` / `&[u8]`. The slot offsets come from the
//! winners returned by [`crate::encoders::auction_iblt::decode_winners`].

use vstd::prelude::*;

use crate::auction::auction::{AuctionWinner, Award};
use crate::bytes::to_vec;
use crate::sorting::views;

verus! {

#[derive(Clone, Copy, Debug, PartialEq, Eq, Structural)]
pub enum SlotError {
    Overflow { slot: usize, payload_len: usize, vec_len: usize },
}

/// `vec` with `payload` written over it from `slot` on.
pub open spec fn written(vec: Seq<u8>, slot: int, payload: Seq<u8>) -> Seq<u8> {
    Seq::new(
        vec.len(),
        |i: int|
            if slot <= i < slot + payload.len() {
                payload[i - slot]
            } else {
                vec[i]
            },
    )
}

/// The bytes of a slot, cut at the end of `vec`.
pub open spec fn slot_bytes(vec: Seq<u8>, w: Award) -> Seq<u8> {
    let start = w.slot_idx as int;
    let end = w.slot_idx + w.slot_size;
    if start >= vec.len() {
        Seq::empty()
    } else if end >= vec.len() {
        vec.skip(start)
    } else {
        vec.subrange(start, end)
    }
}

/// The bytes of every winner's slot.
pub open spec fn all_slot_bytes(vec: Seq<u8>, ws: Seq<Award>) -> Seq<Seq<u8>> {
    Seq::new(ws.len(), |i: int| slot_bytes(vec, ws[i]))
}

/// Write `payload` into `vec` at byte offset `slot`. Errors if the write would
/// run past the end of `vec`.
pub fn write_slot(vec: &mut [u8], slot: usize, payload: &[u8]) -> (r: Result<(), SlotError>)
    ensures
        if slot + payload@.len() <= old(vec)@.len() {
            r is Ok && final(vec)@ == written(old(vec)@, slot as int, payload@)
        } else {
            &&& r == Err::<(), SlotError>(
                SlotError::Overflow {
                    slot,
                    payload_len: payload@.len() as usize,
                    vec_len: old(vec)@.len() as usize,
                },
            )
            &&& final(vec)@ == old(vec)@
        },
{
    let fits = match slot.checked_add(payload.len()) {
        Some(end) => end <= vec.len(),
        None => false,
    };
    if !fits {
        return Err(
            SlotError::Overflow { slot, payload_len: payload.len(), vec_len: vec.len() },
        );
    }
    let mut i: usize = 0;
    while i < payload.len()
        invariant
            i <= payload@.len(),
            vec@.len() == old(vec)@.len(),
            slot + payload@.len() <= vec@.len(),
            vec@.len() <= usize::MAX,
            forall|k: int| slot <= k < slot + i ==> #[trigger] vec@[k] == payload@[k - slot],
            forall|k: int|
                0 <= k < vec@.len() && !(slot <= k < slot + i) ==> #[trigger] vec@[k]
                    == old(vec)@[k],
        decreases payload@.len() - i,
    {
        vec[slot + i] = payload[i];
        i = i + 1;
    }
    proof {
        assert(vec@ =~= written(old(vec)@, slot as int, payload@));
    }
    Ok(())
}

/// Read each winner's payload (`slot_size` bytes starting at `slot_idx`).
/// Truncates if a winner's slot would extend past `vec`.
pub fn read_slots(vec: &[u8], winners: &[AuctionWinner]) -> (r: Vec<Vec<u8>>)
    ensures
        views(r@) == all_slot_bytes(vec@, views(winners@)),
{
    let mut out: Vec<Vec<u8>> = Vec::new();
    let mut i: usize = 0;
    while i < winners.len()
        invariant
            i <= winners@.len(),
            out@.len() == i,
            forall|k: int| 0 <= k < i ==> (#[trigger] out@[k])@ == slot_bytes(vec@, winners@[k]@),
        decreases winners@.len() - i,
    {
        let w = winners[i];
        let start: u64 = w.slot_idx as u64;
        let end: u64 = start + w.slot_size as u64;
        let len: u64 = vec.len() as u64;
        if start >= len {
            let none: Vec<u8> = Vec::new();
            proof {
                assert(none@ =~= slot_bytes(vec@, w@));
            }
            out.push(none);
        } else if end >= len {
            let bytes = to_vec(&vec[start as usize..vec.len()]);
            proof {
                assert(bytes@ =~= slot_bytes(vec@, w@));
            }
            out.push(bytes);
        } else {
            out.push(to_vec(&vec[start as usize..end as usize]));
        }
        i = i + 1;
    }
    proof {
        assert(views(out@) =~= all_slot_bytes(vec@, views(winners@)));
    }
    out
}

/// A payload reads back from the slot that it was written to, in front of what
/// the rest of the slot held.
pub proof fn law_read_gives_written(vec: Seq<u8>, payload: Seq<u8>, w: Award)
    requires
        payload.len() <= w.slot_size,
        w.slot_idx + w.slot_size <= vec.len(),
    ensures
        slot_bytes(written(vec, w.slot_idx as int, payload), w) == payload + slot_bytes(
            vec,
            w,
        ).skip(payload.len() as int),
{
    assert(slot_bytes(written(vec, w.slot_idx as int, payload), w) =~= payload + slot_bytes(
        vec,
        w,
    ).skip(payload.len() as int));
}

/// Writing leaves the slots that do not overlap it alone.
pub proof fn law_write_leaves_other_slots(vec: Seq<u8>, slot: int, payload: Seq<u8>, w: Award)
    requires
        0 <= slot,
        w.slot_idx + w.slot_size <= slot || slot + payload.len() <= w.slot_idx,
    ensures
        slot_bytes(written(vec, slot, payload), w) == slot_bytes(vec, w),
{
    assert(slot_bytes(written(vec, slot, payload), w) =~= slot_bytes(vec, w));
}

} // verus!
