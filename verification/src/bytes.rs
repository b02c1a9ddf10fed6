//! Byte-level building blocks: little- and big-endian integers, the
//! lexicographic order on byte strings, and copies of plain vectors.

use vstd::prelude::*;

use crate::sorting::views;
use crate::sums::{lemma_sum_same, sum};

verus! {

/// `256^n`.
pub open spec fn pow256(n: nat) -> nat
    decreases n,
{
    if n == 0 {
        1
    } else {
        256 * pow256((n - 1) as nat)
    }
}

/// The number that `s` writes in base 256, least significant byte first.
pub open spec fn le_nat(s: Seq<u8>) -> nat
    decreases s.len(),
{
    if s.len() == 0 {
        0
    } else {
        s[0] as nat + 256 * le_nat(s.drop_first())
    }
}

/// The `n` low base-256 digits of `x`, least significant first.
pub open spec fn le_seq(x: nat, n: nat) -> Seq<u8>
    decreases n,
{
    if n == 0 {
        Seq::empty()
    } else {
        seq![(x % 256) as u8] + le_seq(x / 256, (n - 1) as nat)
    }
}

/// The number that `s` writes in base 256, most significant byte first.
pub open spec fn be_nat(s: Seq<u8>) -> nat {
    le_nat(s.reverse())
}

/// The `n` low base-256 digits of `x`, most significant first.
pub open spec fn be_seq(x: nat, n: nat) -> Seq<u8> {
    le_seq(x, n).reverse()
}

/// The powers of 256 that machine words meet.
pub proof fn lemma_pow256_values()
    ensures
        pow256(4) == 0x1_0000_0000,
        pow256(7) == 0x100_0000_0000_0000,
        pow256(8) == 0x1_0000_0000_0000_0000,
{
    reveal_with_fuel(pow256, 9);
}

pub proof fn lemma_pow256_monotone(m: nat, n: nat)
    requires
        m <= n,
    ensures
        pow256(m) <= pow256(n),
    decreases n,
{
    if m < n {
        lemma_pow256_monotone(m, (n - 1) as nat);
    }
}

pub proof fn lemma_le_nat_bound(s: Seq<u8>)
    ensures
        le_nat(s) < pow256(s.len()),
    decreases s.len(),
{
    if s.len() > 0 {
        lemma_le_nat_bound(s.drop_first());
    }
}

pub proof fn lemma_le_seq_len(x: nat, n: nat)
    ensures
        le_seq(x, n).len() == n,
    decreases n,
{
    if n > 0 {
        lemma_le_seq_len(x / 256, (n - 1) as nat);
    }
}

/// Writing a number in `n` digits and reading it back gives the number.
pub proof fn lemma_le_nat_of_le_seq(x: nat, n: nat)
    requires
        x < pow256(n),
    ensures
        le_nat(le_seq(x, n)) == x,
    decreases n,
{
    if n > 0 {
        let t = le_seq(x, n);
        lemma_le_seq_len(x / 256, (n - 1) as nat);
        assert(t.drop_first() =~= le_seq(x / 256, (n - 1) as nat));
        lemma_le_nat_of_le_seq(x / 256, (n - 1) as nat);
    }
}

/// Reading a byte string and writing it back in as many digits gives the
/// byte string.
pub proof fn lemma_le_seq_of_le_nat(s: Seq<u8>)
    ensures
        le_seq(le_nat(s), s.len()) == s,
    decreases s.len(),
{
    if s.len() > 0 {
        let x = le_nat(s);
        assert(x % 256 == s[0] as nat);
        assert(x / 256 == le_nat(s.drop_first()));
        lemma_le_seq_of_le_nat(s.drop_first());
        assert(seq![s[0]] + s.drop_first() =~= s);
    } else {
        assert(s =~= Seq::empty());
    }
}

/// Zero bytes at the significant end do not change the number.
pub proof fn lemma_le_nat_zero_extended(s: Seq<u8>, t: Seq<u8>)
    requires
        forall|i: int| 0 <= i < t.len() ==> t[i] == 0,
    ensures
        le_nat(s + t) == le_nat(s),
    decreases s.len() + t.len(),
{
    if s.len() > 0 {
        assert((s + t).drop_first() =~= s.drop_first() + t);
        lemma_le_nat_zero_extended(s.drop_first(), t);
    } else if t.len() > 0 {
        assert((s + t).drop_first() =~= s + t.drop_first());
        lemma_le_nat_zero_extended(s, t.drop_first());
    } else {
        assert(s + t =~= s);
    }
}

pub proof fn lemma_be_round_trip(x: nat, n: nat)
    requires
        x < pow256(n),
    ensures
        be_seq(x, n).len() == n,
        be_nat(be_seq(x, n)) == x,
{
    lemma_le_seq_len(x, n);
    lemma_le_nat_of_le_seq(x, n);
    assert(be_seq(x, n).reverse() =~= le_seq(x, n));
}

/// Read up to eight little-endian bytes.
pub fn read_le(b: &[u8]) -> (x: u64)
    requires
        b@.len() <= 8,
    ensures
        x == le_nat(b@),
{
    let mut x: u64 = 0;
    let mut i: usize = b.len();
    proof {
        assert(b@.skip(i as int) =~= Seq::empty());
        lemma_pow256_values();
    }
    while i > 0
        invariant
            i <= b@.len() <= 8,
            x == le_nat(b@.skip(i as int)),
        decreases i,
    {
        i = i - 1;
        proof {
            let t = b@.skip(i as int);
            assert(t.drop_first() =~= b@.skip(i + 1));
            lemma_le_nat_bound(t);
            lemma_pow256_monotone(t.len(), 8);
            lemma_pow256_values();
        }
        x = x * 256 + b[i] as u64;
    }
    proof {
        assert(b@.skip(0) =~= b@);
    }
    x
}

/// Write the `n` low bytes of `x`, least significant first.
pub fn write_le(x: u64, n: usize) -> (out: Vec<u8>)
    ensures
        out@ == le_seq(x as nat, n as nat),
        out@.len() == n,
{
    let mut out: Vec<u8> = Vec::new();
    let mut rest: u64 = x;
    let mut i: usize = 0;
    proof {
        assert(out@ + le_seq(x as nat, n as nat) =~= le_seq(x as nat, n as nat));
    }
    while i < n
        invariant
            i <= n,
            out@.len() == i,
            out@ + le_seq(rest as nat, (n - i) as nat) == le_seq(x as nat, n as nat),
        decreases n - i,
    {
        let ghost before = out@;
        let ghost r = rest as nat;
        out.push((rest % 256) as u8);
        rest = rest / 256;
        i = i + 1;
        proof {
            let tail = le_seq(r / 256, (n - i) as nat);
            assert(before + (seq![(r % 256) as u8] + tail) =~= out@ + tail);
        }
    }
    proof {
        assert(out@ + le_seq(rest as nat, 0) =~= out@);
    }
    out
}

/// Read up to eight big-endian bytes.
pub fn read_be(b: &[u8]) -> (x: u64)
    requires
        b@.len() <= 8,
    ensures
        x == be_nat(b@),
{
    let r = reversed(b);
    read_le(&r)
}

/// Write the `n` low bytes of `x`, most significant first.
pub fn write_be(x: u64, n: usize) -> (out: Vec<u8>)
    ensures
        out@ == be_seq(x as nat, n as nat),
        out@.len() == n,
{
    let le = write_le(x, n);
    reversed(&le)
}

fn reversed(b: &[u8]) -> (out: Vec<u8>)
    ensures
        out@ == b@.reverse(),
{
    let mut out: Vec<u8> = Vec::new();
    let mut i: usize = b.len();
    while i > 0
        invariant
            i <= b@.len(),
            out@.len() == b@.len() - i,
            forall|k: int| 0 <= k < out@.len() ==> out@[k] == b@[b@.len() - 1 - k],
        decreases i,
    {
        i = i - 1;
        out.push(b[i]);
    }
    proof {
        assert(out@ =~= b@.reverse());
    }
    out
}

/// `a` comes before `b`, or equals it, in the lexicographic order of bytes.
pub open spec fn bytes_le(a: Seq<u8>, b: Seq<u8>) -> bool
    decreases a.len(),
{
    if a.len() == 0 {
        true
    } else if b.len() == 0 {
        false
    } else if a[0] != b[0] {
        a[0] < b[0]
    } else {
        bytes_le(a.drop_first(), b.drop_first())
    }
}

pub proof fn lemma_bytes_le_total(a: Seq<u8>, b: Seq<u8>)
    ensures
        bytes_le(a, b) || bytes_le(b, a),
    decreases a.len(),
{
    if a.len() > 0 && b.len() > 0 && a[0] == b[0] {
        lemma_bytes_le_total(a.drop_first(), b.drop_first());
    }
}

pub proof fn lemma_bytes_le_transitive(a: Seq<u8>, b: Seq<u8>, c: Seq<u8>)
    requires
        bytes_le(a, b),
        bytes_le(b, c),
    ensures
        bytes_le(a, c),
    decreases a.len(),
{
    if a.len() > 0 && b.len() > 0 && c.len() > 0 && a[0] == b[0] && b[0] == c[0] {
        lemma_bytes_le_transitive(a.drop_first(), b.drop_first(), c.drop_first());
    }
}

pub proof fn lemma_bytes_le_antisymmetric(a: Seq<u8>, b: Seq<u8>)
    requires
        bytes_le(a, b),
        bytes_le(b, a),
    ensures
        a == b,
    decreases a.len(),
{
    if a.len() > 0 && b.len() > 0 {
        lemma_bytes_le_antisymmetric(a.drop_first(), b.drop_first());
        assert(a =~= seq![a[0]] + a.drop_first());
        assert(b =~= seq![b[0]] + b.drop_first());
    } else {
        assert(a =~= b);
    }
}

/// Compare two byte strings in lexicographic order.
pub fn bytes_not_after(a: &[u8], b: &[u8]) -> (r: bool)
    ensures
        r == bytes_le(a@, b@),
{
    let mut i: usize = 0;
    proof {
        assert(a@.skip(0) =~= a@);
        assert(b@.skip(0) =~= b@);
    }
    while i < a.len() && i < b.len()
        invariant
            i <= a@.len(),
            i <= b@.len(),
            bytes_le(a@, b@) == bytes_le(a@.skip(i as int), b@.skip(i as int)),
        decreases a@.len() - i,
    {
        proof {
            assert(a@.skip(i as int).drop_first() =~= a@.skip(i + 1));
            assert(b@.skip(i as int).drop_first() =~= b@.skip(i + 1));
        }
        if a[i] != b[i] {
            return a[i] < b[i];
        }
        i = i + 1;
    }
    i == a.len()
}

/// Whether two byte strings are the same.
pub fn bytes_equal(a: &[u8], b: &[u8]) -> (r: bool)
    ensures
        r == (a@ == b@),
{
    if a.len() != b.len() {
        return false;
    }
    let mut i: usize = 0;
    while i < a.len()
        invariant
            a@.len() == b@.len(),
            i <= a@.len(),
            forall|k: int| 0 <= k < i ==> a@[k] == b@[k],
        decreases a@.len() - i,
    {
        if a[i] != b[i] {
            return false;
        }
        i = i + 1;
    }
    proof {
        assert(a@ =~= b@);
    }
    true
}

/// Whether two vectors of words are the same.
pub fn words_equal(a: &[u64], b: &[u64]) -> (r: bool)
    ensures
        r == (a@ == b@),
{
    if a.len() != b.len() {
        return false;
    }
    let mut i: usize = 0;
    while i < a.len()
        invariant
            a@.len() == b@.len(),
            i <= a@.len(),
            forall|k: int| 0 <= k < i ==> a@[k] == b@[k],
        decreases a@.len() - i,
    {
        if a[i] != b[i] {
            return false;
        }
        i = i + 1;
    }
    proof {
        assert(a@ =~= b@);
    }
    true
}

/// A vector with the elements of `s`.
pub fn to_vec<T: Copy>(s: &[T]) -> (out: Vec<T>)
    ensures
        out@ == s@,
{
    let mut out: Vec<T> = Vec::new();
    let mut i: usize = 0;
    while i < s.len()
        invariant
            i <= s@.len(),
            out@ == s@.take(i as int),
        decreases s@.len() - i,
    {
        out.push(s[i]);
        i = i + 1;
        proof {
            assert(out@ =~= s@.take(i as int));
        }
    }
    proof {
        assert(s@.take(s@.len() as int) =~= s@);
    }
    out
}

/// Copies of byte vectors.
pub fn to_vecs(s: &[Vec<u8>]) -> (out: Vec<Vec<u8>>)
    ensures
        views(out@) == views(s@),
{
    let mut out: Vec<Vec<u8>> = Vec::new();
    let mut i: usize = 0;
    while i < s.len()
        invariant
            i <= s@.len(),
            out@.len() == i,
            forall|k: int| 0 <= k < i ==> (#[trigger] out@[k])@ == s@[k]@,
        decreases s@.len() - i,
    {
        out.push(to_vec(&s[i]));
        i = i + 1;
    }
    proof {
        assert(views(out@) =~= views(s@));
    }
    out
}

/// Append the elements of `s` to `out`.
pub fn append_slice<T: Copy>(out: &mut Vec<T>, s: &[T])
    ensures
        final(out)@ == old(out)@ + s@,
{
    let mut i: usize = 0;
    proof {
        assert(out@ + s@.take(0) =~= out@);
    }
    while i < s.len()
        invariant
            i <= s@.len(),
            out@ == old(out)@ + s@.take(i as int),
        decreases s@.len() - i,
    {
        out.push(s[i]);
        i = i + 1;
        proof {
            assert(out@ =~= old(out)@ + s@.take(i as int));
        }
    }
    proof {
        assert(s@.take(s@.len() as int) =~= s@);
    }
}

// ---------------------------------------------------------------------------
// Laws
// ---------------------------------------------------------------------------

/// Byte `i` of a little-endian number is its digit of weight `256^i`.
pub proof fn law_little_endian_digits(x: nat, n: nat, i: int)
    requires
        0 <= i < n,
    ensures
        le_seq(x, n).len() == n,
        le_seq(x, n)[i] == (x / pow256(i as nat)) % 256,
    decreases n,
{
    lemma_le_seq_len(x, n);
    if i == 0 {
        assert(x / 1 == x);
    } else {
        law_little_endian_digits(x / 256, (n - 1) as nat, i - 1);
        let p = pow256((i - 1) as nat);
        lemma_pow256_positive((i - 1) as nat);
        vstd::arithmetic::div_mod::lemma_div_denominator(x as int, 256, p as int);
        assert(le_seq(x, n)[i] == le_seq(x / 256, (n - 1) as nat)[i - 1]);
    }
}

/// Byte `i` of a big-endian number of `n` bytes is its digit of weight
/// `256^(n - 1 - i)`.
pub proof fn law_big_endian_digits(x: nat, n: nat, i: int)
    requires
        0 <= i < n,
    ensures
        be_seq(x, n).len() == n,
        be_seq(x, n)[i] == (x / pow256((n - 1 - i) as nat)) % 256,
{
    law_little_endian_digits(x, n, n - 1 - i);
}

/// Little-endian bytes stand for the sum of their values, byte `i` times
/// `256^i`.
pub proof fn law_little_endian_value(s: Seq<u8>)
    ensures
        le_nat(s) == sum(|i: int| s[i] * pow256(i as nat), s.len() as int),
    decreases s.len(),
{
    if s.len() > 0 {
        let n = s.len() - 1;
        let init = s.drop_last();
        law_little_endian_value(init);
        lemma_le_nat_last(s);
        lemma_sum_same(
            |i: int| init[i] * pow256(i as nat),
            |i: int| s[i] * pow256(i as nat),
            n,
        );
    }
}

/// Big-endian bytes stand for the sum of their values, byte `i` of `n` times
/// `256^(n - 1 - i)`.
pub proof fn law_big_endian_value(s: Seq<u8>)
    ensures
        be_nat(s) == sum(
            |i: int| s[s.len() - 1 - i] * pow256(i as nat),
            s.len() as int,
        ),
{
    let t = s.reverse();
    law_little_endian_value(t);
    lemma_sum_same(
        |i: int| t[i] * pow256(i as nat),
        |i: int| s[s.len() - 1 - i] * pow256(i as nat),
        s.len() as int,
    );
}

proof fn lemma_pow256_positive(n: nat)
    ensures
        pow256(n) > 0,
    decreases n,
{
    if n > 0 {
        lemma_pow256_positive((n - 1) as nat);
    }
}

proof fn lemma_le_nat_last(s: Seq<u8>)
    requires
        s.len() > 0,
    ensures
        le_nat(s) == le_nat(s.drop_last()) + s.last() * pow256((s.len() - 1) as nat),
    decreases s.len(),
{
    if s.len() == 1 {
        assert(le_nat(s.drop_first()) == 0);
        assert(le_nat(s.drop_last()) == 0);
        assert(s.last() * 1 == s.last());
    } else {
        let rest = s.drop_first();
        lemma_le_nat_last(rest);
        assert(rest.drop_last() =~= s.drop_last().drop_first());
        let p = pow256((s.len() - 2) as nat);
        let l = s.last() as nat;
        assert(256 * (l * p) == l * (256 * p)) by (nonlinear_arith);
    }
}

/// Byte strings are ordered like words in a dictionary: by the first byte in
/// which they differ, and a prefix comes first.
pub proof fn law_byte_strings_are_in_dictionary_order(a: Seq<u8>, b: Seq<u8>)
    ensures
        bytes_le(a, b) <==> a.is_prefix_of(b) || exists|k: int|
            0 <= k < a.len() && k < b.len() && a[k] < b[k] && #[trigger] a.take(k) == b.take(k),
    decreases a.len(),
{
    let later = exists|k: int|
        0 <= k < a.len() && k < b.len() && a[k] < b[k] && #[trigger] a.take(k) == b.take(k);
    if a.len() == 0 {
        assert(a =~= b.subrange(0, 0));
    } else if b.len() == 0 {
    } else if a[0] != b[0] {
        if a[0] < b[0] {
            assert(a.take(0) =~= b.take(0));
        }
        if later {
            let k = choose|k: int|
                0 <= k < a.len() && k < b.len() && a[k] < b[k] && #[trigger] a.take(k) == b.take(k);
            if k > 0 {
                assert(a.take(k)[0] == b.take(k)[0]);
            }
        }
        if a.is_prefix_of(b) {
            assert(a[0] == b.subrange(0, a.len() as int)[0]);
        }
    } else {
        let c = a.drop_first();
        let d = b.drop_first();
        law_byte_strings_are_in_dictionary_order(c, d);
        if c.is_prefix_of(d) {
            assert(a =~= b.subrange(0, a.len() as int)) by {
                assert forall|i: int| 0 <= i < a.len() implies a[i] == b[i] by {
                    if i > 0 {
                        assert(c[i - 1] == d.subrange(0, c.len() as int)[i - 1]);
                    }
                }
            }
        }
        if a.is_prefix_of(b) {
            assert(c =~= d.subrange(0, c.len() as int)) by {
                assert forall|i: int| 0 <= i < c.len() implies c[i] == d[i] by {
                    assert(a[i + 1] == b.subrange(0, a.len() as int)[i + 1]);
                }
            }
        }
        if exists|k: int|
            0 <= k < c.len() && k < d.len() && c[k] < d[k] && #[trigger] c.take(k) == d.take(k) {
            let k = choose|k: int|
                0 <= k < c.len() && k < d.len() && c[k] < d[k] && #[trigger] c.take(k) == d.take(
                    k,
                );
            assert(a.take(k + 1) =~= b.take(k + 1)) by {
                assert forall|i: int| 0 <= i < k + 1 implies a[i] == b[i] by {
                    if i > 0 {
                        assert(c.take(k)[i - 1] == d.take(k)[i - 1]);
                    }
                }
            }
            assert(a[k + 1] < b[k + 1]);
        }
        if later {
            let k = choose|k: int|
                0 <= k < a.len() && k < b.len() && a[k] < b[k] && #[trigger] a.take(k) == b.take(k);
            assert(k > 0);
            assert(c.take(k - 1) =~= d.take(k - 1)) by {
                assert forall|i: int| 0 <= i < k - 1 implies c[i] == d[i] by {
                    assert(a.take(k)[i + 1] == b.take(k)[i + 1]);
                }
            }
            assert(c[k - 1] < d[k - 1]);
        }
    }
}

} // verus!
