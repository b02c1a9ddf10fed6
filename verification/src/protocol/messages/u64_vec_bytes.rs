//! Field vectors as little-endian bytes (`8 · N` bytes).

use vstd::prelude::*;

use crate::bytes::{append_slice, le_nat, le_seq, lemma_le_seq_len, read_le};
use crate::crypto::fields::{all_canonical, canonical, law_wire_round_trip, to_le_bytes_wire, P};

verus! {

/// Why bytes are not a field vector.
#[derive(Clone, Copy, Debug, PartialEq, Eq, Structural)]
pub enum WireError {
    /// The length is not a multiple of 8.
    PartialElement,
    /// An element is not below p.
    NonCanonicalFieldElement,
}

/// The words one after the other, each in eight little-endian bytes.
pub open spec fn words_bytes(v: Seq<u64>) -> Seq<u8>
    decreases v.len(),
{
    if v.len() == 0 {
        Seq::empty()
    } else {
        words_bytes(v.drop_last()) + le_seq(v.last() as nat, 8)
    }
}

/// The words that bytes hold, eight little-endian bytes each.
pub open spec fn bytes_words(b: Seq<u8>) -> Seq<u64> {
    Seq::new(b.len() / 8, |i: int| le_nat(b.subrange(8 * i, 8 * i + 8)) as u64)
}

/// The field vector that bytes hold.
pub open spec fn wire_words(b: Seq<u8>) -> Result<Seq<u64>, WireError> {
    if b.len() % 8 != 0 {
        Err(WireError::PartialElement)
    } else if !all_canonical(bytes_words(b)) {
        Err(WireError::NonCanonicalFieldElement)
    } else {
        Ok(bytes_words(b))
    }
}

pub fn serialize(v: &[u64]) -> (out: Vec<u8>)
    ensures
        out@ == words_bytes(v@),
{
    let mut out: Vec<u8> = Vec::new();
    let mut i: usize = 0;
    proof {
        assert(v@.take(0) =~= Seq::empty());
    }
    while i < v.len()
        invariant
            i <= v@.len(),
            out@ == words_bytes(v@.take(i as int)),
        decreases v@.len() - i,
    {
        proof {
            assert(v@.take(i + 1).drop_last() =~= v@.take(i as int));
        }
        let word = to_le_bytes_wire(v[i]);
        append_slice(&mut out, &word);
        i = i + 1;
    }
    proof {
        assert(v@.take(i as int) =~= v@);
    }
    out
}

pub fn deserialize(buf: &[u8]) -> (r: Result<Vec<u64>, WireError>)
    ensures
        match r {
            Ok(v) => wire_words(buf@) == Ok::<Seq<u64>, WireError>(v@),
            Err(e) => wire_words(buf@) == Err::<Seq<u64>, WireError>(e),
        },
{
    if buf.len() % 8 != 0 {
        return Err(WireError::PartialElement);
    }
    let n: usize = buf.len() / 8;
    let mut out: Vec<u64> = Vec::new();
    let mut i: usize = 0;
    while i < n
        invariant
            i <= n,
            n == buf@.len() / 8,
            8 * n == buf@.len(),
            buf@.len() <= usize::MAX,
            out@.len() == i,
            forall|k: int| 0 <= k < i ==> #[trigger] out@[k] == bytes_words(buf@)[k],
            forall|k: int| 0 <= k < i ==> canonical(#[trigger] out@[k]),
        decreases n - i,
    {
        let x = read_le(&buf[8 * i..8 * i + 8]);
        if x >= P {
            proof {
                assert(!canonical(bytes_words(buf@)[i as int]));
            }
            return Err(WireError::NonCanonicalFieldElement);
        }
        out.push(x);
        i = i + 1;
    }
    proof {
        assert(out@ =~= bytes_words(buf@));
        assert(all_canonical(out@));
    }
    Ok(out)
}

proof fn lemma_words_at(v: Seq<u64>, i: int)
    requires
        0 <= i < v.len(),
    ensures
        words_bytes(v).len() == 8 * v.len(),
        words_bytes(v).subrange(8 * i, 8 * i + 8) == le_seq(v[i] as nat, 8),
    decreases v.len(),
{
    let init = v.drop_last();
    let b = words_bytes(v);
    lemma_le_seq_len(v.last() as nat, 8);
    lemma_words_len(init);
    if i < v.len() - 1 {
        lemma_words_at(init, i);
        assert(b.subrange(8 * i, 8 * i + 8) =~= words_bytes(init).subrange(8 * i, 8 * i + 8));
    } else {
        assert(b.subrange(8 * i, 8 * i + 8) =~= le_seq(v[i] as nat, 8));
    }
}

pub proof fn lemma_words_len(v: Seq<u64>)
    ensures
        words_bytes(v).len() == 8 * v.len(),
    decreases v.len(),
{
    if v.len() > 0 {
        lemma_words_len(v.drop_last());
        lemma_le_seq_len(v.last() as nat, 8);
    }
}

/// The bytes of words hold the words.
pub proof fn lemma_words_come_back(v: Seq<u64>)
    ensures
        words_bytes(v).len() == 8 * v.len(),
        bytes_words(words_bytes(v)) == v,
{
    let b = words_bytes(v);
    lemma_words_len(v);
    assert forall|i: int| 0 <= i < v.len() implies bytes_words(b)[i] == v[i] by {
        lemma_words_at(v, i);
        lemma_le_seq_len(v[i] as nat, 8);
        law_wire_round_trip(v[i], le_seq(v[i] as nat, 8));
    }
    assert(bytes_words(b) =~= v);
}

/// A canonical field vector survives the wire; one with a non-canonical element
/// does not get through.
pub proof fn law_wire_round_trip_of_vectors(v: Seq<u64>)
    ensures
        all_canonical(v) ==> wire_words(words_bytes(v)) == Ok::<Seq<u64>, WireError>(v),
        !all_canonical(v) ==> wire_words(words_bytes(v)) == Err::<Seq<u64>, WireError>(
            WireError::NonCanonicalFieldElement,
        ),
{
    lemma_words_come_back(v);
}

/// Word `i` takes the bytes from `8 * i` on, least significant first.
pub proof fn law_words_on_the_wire(v: Seq<u64>, i: int)
    requires
        0 <= i < v.len(),
    ensures
        words_bytes(v).len() == 8 * v.len(),
        words_bytes(v).subrange(8 * i, 8 * i + 8) == le_seq(v[i] as nat, 8),
{
    lemma_words_at(v, i);
}

/// Bytes are a field vector exactly if their number is a multiple of eight and
/// every eight of them, least significant first, write a number below p. The
/// vector then has these numbers, in order.
pub proof fn law_bytes_are_words_only_if(b: Seq<u8>)
    ensures
        ({
            let whole = b.len() % 8 == 0;
            let reduced = forall|i: int|
                0 <= i < b.len() / 8 ==> (#[trigger] bytes_words(b)[i]) < 0x1eeed4e13a526bab;
            &&& wire_words(b) is Ok <==> whole && reduced
            &&& !whole ==> wire_words(b) == Err::<Seq<u64>, WireError>(WireError::PartialElement)
            &&& whole && !reduced ==> wire_words(b) == Err::<Seq<u64>, WireError>(
                WireError::NonCanonicalFieldElement,
            )
            &&& wire_words(b) matches Ok(v) ==> {
                &&& 8 * v.len() == b.len()
                &&& words_bytes(v) == b
            }
        }),
{
    let v = bytes_words(b);
    if all_canonical(v) {
        assert forall|i: int| 0 <= i < b.len() / 8 implies (#[trigger] v[i])
            < 0x1eeed4e13a526bab by {
            assert(canonical(v[i]));
        }
    }
    if b.len() % 8 == 0 {
        lemma_words_len(v);
        assert forall|j: int| 0 <= j < b.len() implies words_bytes(v)[j] == b[j] by {
            let i = j / 8;
            let k = j % 8;
            let part = b.subrange(8 * i, 8 * i + 8);
            lemma_words_at(v, i);
            crate::bytes::lemma_le_nat_bound(part);
            crate::bytes::lemma_pow256_values();
            crate::bytes::lemma_le_seq_of_le_nat(part);
            assert(words_bytes(v).subrange(8 * i, 8 * i + 8)[k] == words_bytes(v)[j]);
            assert(part[k] == b[j]);
        }
        assert(words_bytes(v) =~= b);
    }
}

} // verus!
