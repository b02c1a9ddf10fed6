//! Finite sums of integers and of bytes under XOR.

use vstd::prelude::*;

verus! {

/// `f(0) + … + f(n - 1)`.
pub open spec fn sum(f: spec_fn(int) -> int, n: int) -> int
    decreases n,
{
    if n <= 0 {
        0
    } else {
        sum(f, n - 1) + f(n - 1)
    }
}

/// `f(0) ^ … ^ f(n - 1)`.
pub open spec fn xor_sum(f: spec_fn(int) -> u8, n: int) -> u8
    decreases n,
{
    if n <= 0 {
        0
    } else {
        xor_sum(f, n - 1) ^ f(n - 1)
    }
}

/// Element `i` of `v`, or 0 past its end.
pub open spec fn word_at(v: Seq<u64>, i: int) -> int {
    if 0 <= i < v.len() {
        v[i] as int
    } else {
        0
    }
}

/// Byte `i` of `v`, or 0 past its end.
pub open spec fn byte_at(v: Seq<u8>, i: int) -> u8 {
    if 0 <= i < v.len() {
        v[i]
    } else {
        0
    }
}

pub proof fn lemma_sum_same(f: spec_fn(int) -> int, g: spec_fn(int) -> int, n: int)
    requires
        forall|i: int| 0 <= i < n ==> #[trigger] f(i) == g(i),
    ensures
        sum(f, n) == sum(g, n),
    decreases n,
{
    if n > 0 {
        lemma_sum_same(f, g, n - 1);
        assert(f(n - 1) == g(n - 1));
    }
}

pub proof fn lemma_sum_adds(f: spec_fn(int) -> int, g: spec_fn(int) -> int, n: int)
    ensures
        sum(|i: int| f(i) + g(i), n) == sum(f, n) + sum(g, n),
    decreases n,
{
    if n > 0 {
        lemma_sum_adds(f, g, n - 1);
    }
}

pub proof fn lemma_sum_zero(n: int)
    ensures
        sum(|i: int| 0, n) == 0,
    decreases n,
{
    if n > 0 {
        lemma_sum_zero(n - 1);
    }
}

/// The order of summation is free.
pub proof fn lemma_sum_swap(f: spec_fn(int, int) -> int, m: int, n: int)
    ensures
        sum(|i: int| sum(|j: int| f(i, j), n), m) == sum(|j: int| sum(|i: int| f(i, j), m), n),
    decreases m,
{
    let outer = |i: int| sum(|j: int| f(i, j), n);
    let inner = |j: int| sum(|i: int| f(i, j), m);
    if m <= 0 {
        lemma_sum_same(inner, |i: int| 0, n);
        lemma_sum_zero(n);
    } else {
        lemma_sum_swap(f, m - 1, n);
        let before = |j: int| sum(|i: int| f(i, j), m - 1);
        let last = |j: int| f(m - 1, j);
        lemma_sum_adds(before, last, n);
        lemma_sum_same(inner, |j: int| before(j) + last(j), n);
        lemma_sum_same(outer, |i: int| sum(|j: int| f(i, j), n), m - 1);
    }
}

/// Congruent terms have congruent sums.
pub proof fn lemma_sum_mod(f: spec_fn(int) -> int, g: spec_fn(int) -> int, n: int, p: int)
    requires
        p > 0,
        forall|i: int| 0 <= i < n ==> #[trigger] f(i) % p == g(i) % p,
    ensures
        sum(f, n) % p == sum(g, n) % p,
    decreases n,
{
    if n > 0 {
        lemma_sum_mod(f, g, n - 1, p);
        assert(f(n - 1) % p == g(n - 1) % p);
        vstd::arithmetic::div_mod::lemma_add_mod_noop(sum(f, n - 1), f(n - 1), p);
        vstd::arithmetic::div_mod::lemma_add_mod_noop(sum(g, n - 1), g(n - 1), p);
    }
}

pub proof fn lemma_xor(a: u8, b: u8, c: u8, d: u8)
    ensures
        (a ^ b) ^ c == a ^ (b ^ c),
        a ^ b == b ^ a,
        a ^ 0 == a,
        a ^ a == 0,
        (a ^ b) ^ b == a,
        (a ^ b) ^ (c ^ d) == (a ^ c) ^ (b ^ d),
{
    assert((a ^ b) ^ c == a ^ (b ^ c)) by (bit_vector);
    assert(a ^ b == b ^ a) by (bit_vector);
    assert(a ^ 0 == a) by (bit_vector);
    assert(a ^ a == 0) by (bit_vector);
    assert((a ^ b) ^ b == a) by (bit_vector);
    assert((a ^ b) ^ (c ^ d) == (a ^ c) ^ (b ^ d)) by (bit_vector);
}

pub proof fn lemma_xor_sum_same(f: spec_fn(int) -> u8, g: spec_fn(int) -> u8, n: int)
    requires
        forall|i: int| 0 <= i < n ==> #[trigger] f(i) == g(i),
    ensures
        xor_sum(f, n) == xor_sum(g, n),
    decreases n,
{
    if n > 0 {
        lemma_xor_sum_same(f, g, n - 1);
        assert(f(n - 1) == g(n - 1));
    }
}

pub proof fn lemma_xor_sum_adds(f: spec_fn(int) -> u8, g: spec_fn(int) -> u8, n: int)
    ensures
        xor_sum(|i: int| f(i) ^ g(i), n) == xor_sum(f, n) ^ xor_sum(g, n),
    decreases n,
{
    if n > 0 {
        lemma_xor_sum_adds(f, g, n - 1);
        lemma_xor(xor_sum(f, n - 1), xor_sum(g, n - 1), f(n - 1), g(n - 1));
    } else {
        lemma_xor(0, 0, 0, 0);
    }
}

pub proof fn lemma_xor_sum_zero(n: int)
    ensures
        xor_sum(|i: int| 0u8, n) == 0,
    decreases n,
{
    if n > 0 {
        lemma_xor_sum_zero(n - 1);
        lemma_xor(0, 0, 0, 0);
    }
}

/// The order of XOR summation is free.
pub proof fn lemma_xor_sum_swap(f: spec_fn(int, int) -> u8, m: int, n: int)
    ensures
        xor_sum(|i: int| xor_sum(|j: int| f(i, j), n), m) == xor_sum(
            |j: int| xor_sum(|i: int| f(i, j), m),
            n,
        ),
    decreases m,
{
    let outer = |i: int| xor_sum(|j: int| f(i, j), n);
    let inner = |j: int| xor_sum(|i: int| f(i, j), m);
    if m <= 0 {
        lemma_xor_sum_same(inner, |i: int| 0u8, n);
        lemma_xor_sum_zero(n);
    } else {
        lemma_xor_sum_swap(f, m - 1, n);
        let before = |j: int| xor_sum(|i: int| f(i, j), m - 1);
        let last = |j: int| f(m - 1, j);
        lemma_xor_sum_adds(before, last, n);
        lemma_xor_sum_same(inner, |j: int| before(j) ^ last(j), n);
        lemma_xor_sum_same(outer, |i: int| xor_sum(|j: int| f(i, j), n), m - 1);
    }
}

/// Taking one term out of a sum.
proof fn lemma_sum_without<A>(g: spec_fn(A) -> int, a: Seq<A>, j: int)
    requires
        0 <= j < a.len(),
    ensures
        sum(|i: int| g(a[i]), a.len() as int) == sum(
            |i: int| g(a.remove(j)[i]),
            a.len() - 1,
        ) + g(a[j]),
    decreases a.len(),
{
    let n = a.len() - 1;
    let c = a.remove(j);
    if j == n {
        lemma_sum_same(|i: int| g(a[i]), |i: int| g(c[i]), n);
    } else {
        let init = a.drop_last();
        lemma_sum_without(g, init, j);
        lemma_sum_same(|i: int| g(a[i]), |i: int| g(init[i]), n);
        assert(c.drop_last() =~= init.remove(j));
        lemma_sum_same(|i: int| g(c[i]), |i: int| g(init.remove(j)[i]), n - 1);
    }
}

/// A sum does not depend on the order of its terms.
pub proof fn lemma_sum_permuted<A>(g: spec_fn(A) -> int, a: Seq<A>, b: Seq<A>)
    requires
        a.to_multiset() == b.to_multiset(),
    ensures
        a.len() == b.len(),
        sum(|i: int| g(a[i]), a.len() as int) == sum(|i: int| g(b[i]), b.len() as int),
    decreases a.len(),
{
    broadcast use vstd::seq_lib::group_to_multiset_ensures;

    assert(a.len() == a.to_multiset().len());
    assert(b.len() == b.to_multiset().len());
    if a.len() > 0 {
        let x = a.last();
        let n = a.len() - 1;
        assert(a.contains(x)) by {
            assert(a[n] == x);
        }
        assert(b.contains(x)) by {
            assert(b.to_multiset().count(x) > 0);
        }
        let j = choose|j: int| 0 <= j < b.len() && b[j] == x;
        let rest = b.remove(j);
        vstd::seq_lib::to_multiset_remove(a, n);
        vstd::seq_lib::to_multiset_remove(b, j);
        assert(a.remove(n) =~= a.drop_last());
        lemma_sum_permuted(g, a.drop_last(), rest);
        lemma_sum_without(g, b, j);
        lemma_sum_same(|i: int| g(a[i]), |i: int| g(a.drop_last()[i]), n);
    }
}

/// A sum over two lists one after the other is the sum over each.
pub proof fn lemma_sum_append<A>(g: spec_fn(A) -> int, a: Seq<A>, b: Seq<A>)
    ensures
        sum(|i: int| g((a + b)[i]), (a + b).len() as int) == sum(|i: int| g(a[i]), a.len() as int)
            + sum(|i: int| g(b[i]), b.len() as int),
    decreases b.len(),
{
    let both = a + b;
    if b.len() == 0 {
        assert(both =~= a);
    } else {
        let init = b.drop_last();
        lemma_sum_append(g, a, init);
        assert(both.drop_last() =~= a + init);
        lemma_sum_same(|i: int| g(both[i]), |i: int| g((a + init)[i]), both.len() - 1);
        lemma_sum_same(|i: int| g(b[i]), |i: int| g(init[i]), b.len() - 1);
    }
}

/// An XOR over two lists one after the other is the XOR over each.
pub proof fn lemma_xor_sum_append<A>(g: spec_fn(A) -> u8, a: Seq<A>, b: Seq<A>)
    ensures
        xor_sum(|i: int| g((a + b)[i]), (a + b).len() as int) == xor_sum(
            |i: int| g(a[i]),
            a.len() as int,
        ) ^ xor_sum(|i: int| g(b[i]), b.len() as int),
    decreases b.len(),
{
    let both = a + b;
    let x = xor_sum(|i: int| g(a[i]), a.len() as int);
    if b.len() == 0 {
        assert(both =~= a);
        lemma_xor(x, 0, 0, 0);
    } else {
        let init = b.drop_last();
        lemma_xor_sum_append(g, a, init);
        assert(both.drop_last() =~= a + init);
        lemma_xor_sum_same(|i: int| g(both[i]), |i: int| g((a + init)[i]), both.len() - 1);
        lemma_xor_sum_same(|i: int| g(b[i]), |i: int| g(init[i]), b.len() - 1);
        lemma_xor(x, xor_sum(|i: int| g(init[i]), init.len() as int), g(b.last()), 0);
    }
}

/// Taking one term out of an XOR.
proof fn lemma_xor_sum_without<A>(g: spec_fn(A) -> u8, a: Seq<A>, j: int)
    requires
        0 <= j < a.len(),
    ensures
        xor_sum(|i: int| g(a[i]), a.len() as int) == xor_sum(
            |i: int| g(a.remove(j)[i]),
            a.len() - 1,
        ) ^ g(a[j]),
    decreases a.len(),
{
    let n = a.len() - 1;
    let c = a.remove(j);
    if j == n {
        lemma_xor_sum_same(|i: int| g(a[i]), |i: int| g(c[i]), n);
    } else {
        let init = a.drop_last();
        lemma_xor_sum_without(g, init, j);
        lemma_xor_sum_same(|i: int| g(a[i]), |i: int| g(init[i]), n);
        assert(c.drop_last() =~= init.remove(j));
        lemma_xor_sum_same(|i: int| g(c[i]), |i: int| g(init.remove(j)[i]), n - 1);
        let x = xor_sum(|i: int| g(init.remove(j)[i]), n - 1);
        let y = g(a[j]);
        let z = g(a[n]);
        assert((x ^ y) ^ z == (x ^ z) ^ y) by (bit_vector);
    }
}

/// An XOR does not depend on the order of its terms.
pub proof fn lemma_xor_sum_permuted<A>(g: spec_fn(A) -> u8, a: Seq<A>, b: Seq<A>)
    requires
        a.to_multiset() == b.to_multiset(),
    ensures
        a.len() == b.len(),
        xor_sum(|i: int| g(a[i]), a.len() as int) == xor_sum(|i: int| g(b[i]), b.len() as int),
    decreases a.len(),
{
    broadcast use vstd::seq_lib::group_to_multiset_ensures;

    assert(a.len() == a.to_multiset().len());
    assert(b.len() == b.to_multiset().len());
    if a.len() > 0 {
        let x = a.last();
        let n = a.len() - 1;
        assert(a.contains(x)) by {
            assert(a[n] == x);
        }
        assert(b.contains(x)) by {
            assert(b.to_multiset().count(x) > 0);
        }
        let j = choose|j: int| 0 <= j < b.len() && b[j] == x;
        let rest = b.remove(j);
        vstd::seq_lib::to_multiset_remove(a, n);
        vstd::seq_lib::to_multiset_remove(b, j);
        assert(a.remove(n) =~= a.drop_last());
        lemma_xor_sum_permuted(g, a.drop_last(), rest);
        lemma_xor_sum_without(g, b, j);
        lemma_xor_sum_same(|i: int| g(a[i]), |i: int| g(a.drop_last()[i]), n);
    }
}

/// An XOR with one term that is not zero.
pub proof fn lemma_xor_sum_single(f: spec_fn(int) -> u8, n: int, c: int)
    requires
        forall|i: int| 0 <= i < n && i != c ==> #[trigger] f(i) == 0,
    ensures
        xor_sum(f, n) == if 0 <= c < n {
            f(c)
        } else {
            0
        },
    decreases n,
{
    if n > 0 {
        lemma_xor_sum_single(f, n - 1, c);
        let a = f(n - 1);
        assert(0u8 ^ a == a) by (bit_vector);
        assert(a ^ 0u8 == a) by (bit_vector);
        let b = xor_sum(f, n - 1);
        assert(b ^ 0u8 == b) by (bit_vector);
    }
}

} // verus!
