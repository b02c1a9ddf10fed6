//! Hexadecimal text.

use vstd::prelude::*;
use vstd::string::StringSliceAdditionalSpecFns;
use vstd::utf8::encode_utf8;

verus! {

/// Why a text is not the hexadecimal form of a byte string.
#[derive(Clone, Copy, Debug, PartialEq, Eq, Structural)]
pub enum HexError {
    InvalidHexCharacter { c: char, index: usize },
    OddLength,
    InvalidStringLength,
}

/// The lower-case digit for `d < 16`.
pub open spec fn hex_digit(d: int) -> char {
    if d < 10 {
        (48 + d) as char
    } else {
        (87 + d) as char
    }
}

/// The lower-case hexadecimal form of `b`: two digits per byte, high nibble
/// first.
pub open spec fn hex_text(b: Seq<u8>) -> Seq<char> {
    Seq::new(
        2 * b.len(),
        |i: int|
            hex_digit(
                if i % 2 == 0 {
                    b[i / 2] / 16
                } else {
                    b[i / 2] % 16
                } as int,
            ),
    )
}

/// The value of an ASCII hexadecimal digit of either case.
pub open spec fn digit_value(c: u8) -> Option<int> {
    if 48 <= c <= 57 {
        Some(c - 48)
    } else if 65 <= c <= 70 {
        Some(c - 55)
    } else if 97 <= c <= 102 {
        Some(c - 87)
    } else {
        None
    }
}

/// The first position from `i` on that does not hold a digit, or the length.
pub open spec fn first_non_digit(text: Seq<u8>, i: int) -> int
    decreases text.len() - i,
{
    if i < 0 || i >= text.len() || digit_value(text[i]) is None {
        i
    } else {
        first_non_digit(text, i + 1)
    }
}

/// The byte string that the ASCII text `text` writes in hexadecimal.
pub open spec fn hex_decoded(text: Seq<u8>) -> Result<Seq<u8>, HexError> {
    let bad = first_non_digit(text, 0);
    if text.len() % 2 != 0 {
        Err(HexError::OddLength)
    } else if bad < text.len() {
        Err(HexError::InvalidHexCharacter { c: text[bad] as char, index: bad as usize })
    } else {
        Ok(
            Seq::new(
                text.len() / 2,
                |i: int|
                    (16 * digit_value(text[2 * i])->0 + digit_value(text[2 * i + 1])->0) as u8,
            ),
        )
    }
}

/// Wraps `hex::encode`. Claims that it writes each byte as two lower-case
/// digits, high nibble first.
#[verifier::external_body]
pub(crate) fn hex_encode(data: &[u8]) -> (out: String)
    ensures
        out@ == hex_text(data@),
{
    hex::encode(data)
}

/// Wraps `hex::decode`. Claims that it reads pairs of digits of either case
/// from the UTF-8 bytes of the text, refuses an odd number of bytes first, and
/// then reports the first byte that is not a digit.
#[verifier::external_body]
pub(crate) fn hex_decode(text: &str) -> (r: Result<Vec<u8>, HexError>)
    ensures
        match r {
            Ok(v) => hex_decoded(text.spec_bytes()) == Ok::<Seq<u8>, HexError>(v@),
            Err(e) => hex_decoded(text.spec_bytes()) == Err::<Seq<u8>, HexError>(e),
        },
{
    match hex::decode(text) {
        Ok(v) => Ok(v),
        Err(hex::FromHexError::InvalidHexCharacter { c, index }) => {
            Err(HexError::InvalidHexCharacter { c, index })
        },
        Err(hex::FromHexError::OddLength) => Err(HexError::OddLength),
        Err(hex::FromHexError::InvalidStringLength) => Err(HexError::InvalidStringLength),
    }
}

proof fn lemma_hex_digit_value(d: int)
    requires
        0 <= d < 16,
    ensures
        hex_digit(d) as int == if d < 10 {
            48 + d
        } else {
            87 + d
        },
        digit_value(hex_digit(d) as u8) == Some(d),
{
}

proof fn lemma_all_digits(text: Seq<u8>, i: int)
    requires
        0 <= i <= text.len(),
        forall|k: int| i <= k < text.len() ==> digit_value(#[trigger] text[k]) is Some,
    ensures
        first_non_digit(text, i) == text.len(),
    decreases text.len() - i,
{
    if i < text.len() {
        assert(digit_value(text[i]) is Some);
        lemma_all_digits(text, i + 1);
    }
}

/// Reading the hexadecimal form of a byte string gives the byte string back.
pub proof fn law_hex_round_trip(b: Seq<u8>)
    requires
        2 * b.len() <= usize::MAX,
    ensures
        hex_decoded(encode_utf8(hex_text(b))) == Ok::<Seq<u8>, HexError>(b),
{
    let chars = hex_text(b);
    assert forall|i: int| 0 <= i < chars.len() implies (#[trigger] chars[i]) as int <= 127
        && digit_value(chars[i] as u8) == Some(
        if i % 2 == 0 {
            b[i / 2] / 16
        } else {
            b[i / 2] % 16
        } as int,
    ) by {
        lemma_hex_digit_value(
            if i % 2 == 0 {
                b[i / 2] / 16
            } else {
                b[i / 2] % 16
            } as int,
        );
    }
    assert(vstd::utf8::is_ascii_chars(chars));
    vstd::utf8::is_ascii_chars_encode_utf8(chars);
    let text = encode_utf8(chars);
    assert(text =~= Seq::new(chars.len(), |i: int| chars[i] as u8));
    assert forall|k: int| 0 <= k < text.len() implies digit_value(#[trigger] text[k]) is Some by {
        assert(text[k] == chars[k] as u8);
    }
    lemma_all_digits(text, 0);
    let out = hex_decoded(text)->Ok_0;
    assert forall|i: int| 0 <= i < b.len() implies out[i] == b[i] by {
        assert(text[2 * i] == chars[2 * i] as u8);
        assert(text[2 * i + 1] == chars[2 * i + 1] as u8);
        assert((2 * i) / 2 == i && (2 * i) % 2 == 0);
        assert((2 * i + 1) / 2 == i && (2 * i + 1) % 2 == 1);
    }
    assert(out =~= b);
}

/// Different byte strings have different hexadecimal forms.
pub proof fn law_hex_is_injective(a: Seq<u8>, b: Seq<u8>)
    requires
        hex_text(a) == hex_text(b),
    ensures
        a == b,
{
    assert(hex_text(a).len() == 2 * a.len());
    assert(hex_text(b).len() == 2 * b.len());
    assert forall|i: int| 0 <= i < a.len() implies a[i] == b[i] by {
        assert((2 * i) / 2 == i && (2 * i) % 2 == 0);
        assert((2 * i + 1) / 2 == i && (2 * i + 1) % 2 == 1);
        assert(hex_text(a)[2 * i] == hex_digit((a[i] / 16) as int));
        assert(hex_text(b)[2 * i] == hex_digit((b[i] / 16) as int));
        assert(hex_text(a)[2 * i + 1] == hex_digit((a[i] % 16) as int));
        assert(hex_text(b)[2 * i + 1] == hex_digit((b[i] % 16) as int));
        lemma_hex_digit_value((a[i] / 16) as int);
        lemma_hex_digit_value((b[i] / 16) as int);
        lemma_hex_digit_value((a[i] % 16) as int);
        lemma_hex_digit_value((b[i] % 16) as int);
    }
    assert(a =~= b);
}

/// The sixteen digits, in lower case.
pub open spec fn lower_digits() -> Seq<char> {
    seq!['0', '1', '2', '3', '4', '5', '6', '7', '8', '9', 'a', 'b', 'c', 'd', 'e', 'f']
}

/// Byte `i` is written as two digits, the upper four bits first.
pub proof fn law_bytes_are_two_digits(b: Seq<u8>, i: int)
    requires
        0 <= i < b.len(),
    ensures
        hex_text(b).len() == 2 * b.len(),
        hex_text(b)[2 * i] == lower_digits()[(b[i] / 16) as int],
        hex_text(b)[2 * i + 1] == lower_digits()[(b[i] % 16) as int],
{
    assert((2 * i) / 2 == i && (2 * i) % 2 == 0);
    assert((2 * i + 1) / 2 == i && (2 * i + 1) % 2 == 1);
    lemma_hex_digit_value((b[i] / 16) as int);
    lemma_hex_digit_value((b[i] % 16) as int);
}

proof fn lemma_first_non_digit(text: Seq<u8>, i: int)
    requires
        0 <= i <= text.len(),
    ensures
        i <= first_non_digit(text, i) <= text.len(),
        forall|k: int|
            i <= k < first_non_digit(text, i) ==> digit_value(#[trigger] text[k]) is Some,
        first_non_digit(text, i) < text.len() ==> digit_value(
            text[first_non_digit(text, i)],
        ) is None,
    decreases text.len() - i,
{
    if i < text.len() && digit_value(text[i]) is Some {
        lemma_first_non_digit(text, i + 1);
    }
}

/// The ASCII code of a digit, in either case.
pub open spec fn is_hex_code(c: u8) -> bool {
    48 <= c <= 57 || 65 <= c <= 70 || 97 <= c <= 102
}

/// A text is read exactly if its length is even and it has digits only, in
/// either case. Written again, what was read is the text in lower case. Of other
/// characters the first is reported.
pub proof fn law_hex_is_read_only_if(text: Seq<u8>)
    ensures
        ({
            let r = hex_decoded(text);
            let even = text.len() % 2 == 0;
            let digits = forall|k: int| 0 <= k < text.len() ==> is_hex_code(#[trigger] text[k]);
            &&& !even ==> r == Err::<Seq<u8>, HexError>(HexError::OddLength)
            &&& even && !digits ==> exists|k: int|
                0 <= k < text.len() && !is_hex_code(#[trigger] text[k]) && (forall|j: int|
                    0 <= j < k ==> is_hex_code(#[trigger] text[j])) && r == Err::<
                    Seq<u8>,
                    HexError,
                >(HexError::InvalidHexCharacter { c: text[k] as char, index: k as usize })
            &&& even && digits ==> r is Ok && hex_text(r->Ok_0).len() == text.len()
            &&& even && digits ==> forall|k: int|
                0 <= k < text.len() ==> (#[trigger] hex_text(r->Ok_0)[k]) as int == if text[k]
                    < 97 && text[k] >= 65 {
                    text[k] + 32
                } else {
                    text[k] as int
                }
        }),
{
    lemma_first_non_digit(text, 0);
    let bad = first_non_digit(text, 0);
    if bad < text.len() {
        assert(!is_hex_code(text[bad]));
        assert forall|j: int| 0 <= j < bad implies is_hex_code(#[trigger] text[j]) by {
            assert(digit_value(text[j]) is Some);
        }
    } else {
        assert forall|k: int| 0 <= k < text.len() implies is_hex_code(#[trigger] text[k]) by {
            assert(digit_value(text[k]) is Some);
        }
        if text.len() % 2 == 0 {
            let v = hex_decoded(text)->Ok_0;
            assert forall|k: int| 0 <= k < text.len() implies (#[trigger] hex_text(v)[k]) as int
                == if text[k] < 97 && text[k] >= 65 {
                text[k] + 32
            } else {
                text[k] as int
            } by {
                let i = k / 2;
                assert(is_hex_code(text[2 * i]) && is_hex_code(text[2 * i + 1]));
                let hi = digit_value(text[2 * i])->0;
                let lo = digit_value(text[2 * i + 1])->0;
                assert(v[i] == 16 * hi + lo);
                assert(v[i] / 16 == hi && v[i] % 16 == lo);
                lemma_hex_digit_value(hi);
                lemma_hex_digit_value(lo);
            }
        }
    }
}

} // verus!
