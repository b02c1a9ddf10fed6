//! XOR-additive blinded broadcast over `Vec<u8>`.
//!
//! Carries the message round of the 2-round protocol. Plaintexts are raw bytes;
//! "summation" is XOR.

use vstd::prelude::*;

use crate::bytes::to_vec;
use crate::crypto::blinding::{
    derive_xor_blinding_vector, domain_prefixed, vxor, xor_blinding_vector, xor_inplace, xor_pad,
    zero_vec,
};
use crate::crypto::blinding_laws::{ctr_byte, law_xor_blinding_is_the_keystreams};
use crate::crypto::types::SharedKey;
use crate::sorting::{lemma_images, views};
use crate::sums::{
    lemma_xor, lemma_xor_sum_adds, lemma_xor_sum_append, lemma_xor_sum_permuted,
    lemma_xor_sum_same, lemma_xor_sum_swap, xor_sum,
};

use super::{column, prefixed, XOR_ROUND_DOMAIN};

verus! {

/// The vectors behind a slice of slices.
pub open spec fn slice_views(s: Seq<&[u8]>) -> Seq<Seq<u8>> {
    Seq::new(s.len(), |i: int| s[i]@)
}

/// Every vector has `n` bytes.
pub open spec fn all_of_len(vs: Seq<Seq<u8>>, n: nat) -> bool {
    forall|i: int| 0 <= i < vs.len() ==> (#[trigger] vs[i]).len() == n
}

/// The vector of `n` zero bytes.
pub open spec fn xzero(n: nat) -> Seq<u8> {
    Seq::new(n, |i: int| 0u8)
}

/// `dst` with every vector of `vs` XORed into it.
pub open spec fn xor_all(dst: Seq<u8>, vs: Seq<Seq<u8>>) -> Seq<u8>
    decreases vs.len(),
{
    if vs.len() == 0 {
        dst
    } else {
        vxor(xor_all(dst, vs.drop_last()), vs.last())
    }
}

/// The XOR of client contributions; the empty vector if there are none.
pub open spec fn aggregated(vs: Seq<Seq<u8>>) -> Seq<u8> {
    if vs.len() == 0 {
        Seq::empty()
    } else {
        xor_all(xzero(vs[0].len()), vs)
    }
}

/// The share of a server that holds `secrets`.
pub open spec fn share(secrets: Seq<Seq<u8>>, round: u32, n: nat) -> Seq<u8> {
    xor_blinding_vector(prefixed(secrets, XOR_ROUND_DOMAIN), round, n)
}

/// A contribution blinded with the pads of `secrets`.
pub open spec fn blinded(secrets: Seq<Seq<u8>>, round: u32, contents: Seq<u8>) -> Seq<u8> {
    vxor(contents, share(secrets, round, contents.len()))
}

fn xor_prefixed(secrets: &[SharedKey]) -> (r: Vec<SharedKey>)
    ensures
        views(r@) == prefixed(views(secrets@), XOR_ROUND_DOMAIN),
{
    let mut out: Vec<SharedKey> = Vec::new();
    let mut i: usize = 0;
    while i < secrets.len()
        invariant
            i <= secrets@.len(),
            out@.len() == i,
            forall|k: int|
                0 <= k < i ==> (#[trigger] out@[k])@ == seq![XOR_ROUND_DOMAIN] + secrets@[k]@,
        decreases secrets@.len() - i,
    {
        out.push(domain_prefixed(&secrets[i], XOR_ROUND_DOMAIN));
        i = i + 1;
    }
    proof {
        assert(views(out@) =~= prefixed(views(secrets@), XOR_ROUND_DOMAIN));
    }
    out
}

/// XOR the per-secret PRF pads into `contents` in-place and return it.
pub fn client_blind(secrets: &[SharedKey], round: u32, contents: Vec<u8>) -> (r: Vec<u8>)
    ensures
        r@ == blinded(views(secrets@), round, contents@),
        r@.len() == contents@.len(),
{
    let mut contents = contents;
    let pad = server_share(secrets, round, contents.len());
    xor_inplace(&mut contents, &pad);
    contents
}

/// Compute this server's share for a round of length `len`.
pub fn server_share(secrets: &[SharedKey], round: u32, len: usize) -> (r: Vec<u8>)
    ensures
        r@ == share(views(secrets@), round, len as nat),
        r@.len() == len,
{
    let tagged = xor_prefixed(secrets);
    derive_xor_blinding_vector(&tagged, round, len)
}

/// XOR every blinded client contribution into a caller-provided `dst`.
///
/// `dst.len()` must match each source length; `dst` is *not* pre-zeroed
/// (callers can extend a running aggregate).
pub fn aggregate_clients_into(dst: &mut [u8], sources: &[&[u8]])
    requires
        all_of_len(slice_views(sources@), old(dst)@.len()),
    ensures
        final(dst)@ == xor_all(old(dst)@, slice_views(sources@)),
        final(dst)@.len() == old(dst)@.len(),
{
    let ghost all = slice_views(sources@);
    let mut i: usize = 0;
    proof {
        assert(all.take(0) =~= Seq::empty());
    }
    while i < sources.len()
        invariant
            i <= sources@.len(),
            all == slice_views(sources@),
            dst@ == xor_all(old(dst)@, all.take(i as int)),
            dst@.len() == old(dst)@.len(),
        decreases sources@.len() - i,
    {
        proof {
            assert(all.take(i + 1).drop_last() =~= all.take(i as int));
        }
        xor_inplace(dst, sources[i]);
        i = i + 1;
    }
    proof {
        assert(all.take(i as int) =~= all);
    }
}

/// Convenience wrapper that allocates `dst` once.
pub fn aggregate_clients(sources: &[&[u8]]) -> (dst: Vec<u8>)
    requires
        sources@.len() > 0 ==> all_of_len(slice_views(sources@), sources@[0]@.len()),
    ensures
        dst@ == aggregated(slice_views(sources@)),
{
    if sources.len() == 0 {
        return Vec::new();
    }
    let mut dst = zero_vec(sources[0].len());
    aggregate_clients_into(&mut dst, sources);
    dst
}

/// XOR all server shares into the aggregate to recover the plaintext XOR-sum
/// of all client contributions.
pub fn combine_partials(agg: &[u8], partials: &[&[u8]]) -> (out: Vec<u8>)
    requires
        all_of_len(slice_views(partials@), agg@.len()),
    ensures
        out@ == xor_all(agg@, slice_views(partials@)),
        out@.len() == agg@.len(),
{
    let mut out = to_vec(agg);
    aggregate_clients_into(&mut out, partials);
    out
}

// ---------------------------------------------------------------------------
// Laws
// ---------------------------------------------------------------------------

pub proof fn lemma_xor_all_len(dst: Seq<u8>, vs: Seq<Seq<u8>>)
    ensures
        xor_all(dst, vs).len() == dst.len(),
    decreases vs.len(),
{
    if vs.len() > 0 {
        lemma_xor_all_len(dst, vs.drop_last());
    }
}

/// Byte `i` of an XOR of vectors.
pub proof fn lemma_xor_all_at(dst: Seq<u8>, vs: Seq<Seq<u8>>, i: int)
    requires
        all_of_len(vs, dst.len()),
        0 <= i < dst.len(),
    ensures
        xor_all(dst, vs)[i] == dst[i] ^ xor_sum(|j: int| vs[j][i], vs.len() as int),
    decreases vs.len(),
{
    let f = |j: int| vs[j][i];
    lemma_xor_all_len(dst, vs);
    if vs.len() == 0 {
        lemma_xor(dst[i], 0, 0, 0);
    } else {
        let init = vs.drop_last();
        let n = vs.len() - 1;
        assert(all_of_len(init, dst.len())) by {
            assert forall|k: int| 0 <= k < init.len() implies (#[trigger] init[k]).len()
                == dst.len() by {
                assert(init[k] == vs[k]);
            }
        }
        lemma_xor_all_at(dst, init, i);
        lemma_xor_all_len(dst, init);
        lemma_xor_sum_same(|j: int| init[j][i], f, n);
        assert(vs[n].len() == dst.len());
        lemma_xor(dst[i], xor_sum(f, n), f(n), 0);
    }
}

proof fn lemma_xor_vector_at(secrets: Seq<Seq<u8>>, round: u32, n: nat, i: int)
    requires
        0 <= i < n,
    ensures
        xor_blinding_vector(secrets, round, n).len() == n,
        xor_blinding_vector(secrets, round, n)[i] == xor_sum(
            |s: int| xor_pad(secrets[s], round, n)[i],
            secrets.len() as int,
        ),
    decreases secrets.len(),
{
    if secrets.len() > 0 {
        let init = secrets.drop_last();
        let m = secrets.len() - 1;
        lemma_xor_vector_at(init, round, n, i);
        lemma_xor_sum_same(
            |s: int| xor_pad(init[s], round, n)[i],
            |s: int| xor_pad(secrets[s], round, n)[i],
            m,
        );
    }
}

proof fn lemma_xor_vector_len(secrets: Seq<Seq<u8>>, round: u32, n: nat)
    ensures
        xor_blinding_vector(secrets, round, n).len() == n,
    decreases secrets.len(),
{
    if secrets.len() > 0 {
        lemma_xor_vector_len(secrets.drop_last(), round, n);
    }
}

/// A share does not depend on the order of the secrets.
pub proof fn law_share_ignores_order(a: Seq<Seq<u8>>, b: Seq<Seq<u8>>, round: u32, n: nat)
    requires
        a.to_multiset() == b.to_multiset(),
    ensures
        share(a, round, n) == share(b, round, n),
{
    let tag = |s: Seq<u8>| seq![XOR_ROUND_DOMAIN] + s;
    let ta = prefixed(a, XOR_ROUND_DOMAIN);
    let tb = prefixed(b, XOR_ROUND_DOMAIN);
    assert(ta =~= a.map_values(tag));
    assert(tb =~= b.map_values(tag));
    lemma_images(a, b, tag);
    lemma_xor_vector_len(ta, round, n);
    lemma_xor_vector_len(tb, round, n);
    let x = share(a, round, n);
    let y = share(b, round, n);
    assert forall|i: int| 0 <= i < n implies x[i] == y[i] by {
        lemma_xor_vector_at(ta, round, n, i);
        lemma_xor_vector_at(tb, round, n, i);
        let g = |s: Seq<u8>| xor_pad(s, round, n)[i];
        lemma_xor_sum_permuted(g, ta, tb);
        lemma_xor_sum_same(
            |s: int| xor_pad(ta[s], round, n)[i],
            |s: int| g(ta[s]),
            ta.len() as int,
        );
        lemma_xor_sum_same(
            |s: int| xor_pad(tb[s], round, n)[i],
            |s: int| g(tb[s]),
            tb.len() as int,
        );
    }
    assert(x =~= y);
}

/// A share has the length asked for.
pub proof fn lemma_share_len(secrets: Seq<Seq<u8>>, round: u32, n: nat)
    ensures
        share(secrets, round, n).len() == n,
{
    lemma_xor_vector_len(prefixed(secrets, XOR_ROUND_DOMAIN), round, n);
}

/// Byte `i` of a share is the XOR of byte `i` of the keystreams of all secrets,
/// each tagged with a one byte.
pub proof fn law_share_is_the_keystreams(secrets: Seq<Seq<u8>>, round: u32, n: nat, i: int)
    requires
        0 <= i < n,
    ensures
        share(secrets, round, n).len() == n,
        share(secrets, round, n)[i] == xor_sum(
            |s: int| ctr_byte(seq![1u8] + secrets[s], round, (i / 16) as nat, i % 16),
            secrets.len() as int,
        ),
{
    let tagged = prefixed(secrets, XOR_ROUND_DOMAIN);
    law_xor_blinding_is_the_keystreams(tagged, round, n, i);
    lemma_xor_sum_same(
        |s: int| ctr_byte(tagged[s], round, (i / 16) as nat, i % 16),
        |s: int| ctr_byte(seq![1u8] + secrets[s], round, (i / 16) as nat, i % 16),
        secrets.len() as int,
    );
}

/// Byte `i` of a blinded contribution is what was contributed XORed with byte
/// `i` of the keystreams of all secrets.
pub proof fn law_blinding_is_the_keystreams(
    secrets: Seq<Seq<u8>>,
    round: u32,
    contents: Seq<u8>,
    i: int,
)
    requires
        0 <= i < contents.len(),
    ensures
        blinded(secrets, round, contents).len() == contents.len(),
        blinded(secrets, round, contents)[i] == contents[i] ^ xor_sum(
            |s: int| ctr_byte(seq![1u8] + secrets[s], round, (i / 16) as nat, i % 16),
            secrets.len() as int,
        ),
{
    law_share_is_the_keystreams(secrets, round, contents.len(), i);
}

/// Byte `i` of an aggregate of contributions is their XOR.
pub proof fn law_aggregate_adds_up(vs: Seq<Seq<u8>>, i: int)
    requires
        vs.len() > 0,
        all_of_len(vs, vs[0].len()),
        0 <= i < vs[0].len(),
    ensures
        aggregated(vs).len() == vs[0].len(),
        aggregated(vs)[i] == xor_sum(|j: int| vs[j][i], vs.len() as int),
{
    let n = vs[0].len();
    lemma_xor_all_len(xzero(n), vs);
    lemma_xor_all_at(xzero(n), vs, i);
    lemma_xor(xor_sum(|j: int| vs[j][i], vs.len() as int), 0, 0, 0);
}

/// No contributions make the empty aggregate.
pub proof fn law_nothing_adds_up_to_nothing()
    ensures
        aggregated(Seq::empty()) == Seq::<u8>::empty(),
{
}

/// Byte `i` of a vector with others XORed into it is the XOR of all of them:
/// so it is for contributions that join a running aggregate and for shares
/// that are taken out of one.
pub proof fn law_vectors_are_xored_in(dst: Seq<u8>, vs: Seq<Seq<u8>>, i: int)
    requires
        all_of_len(vs, dst.len()),
        0 <= i < dst.len(),
    ensures
        xor_all(dst, vs).len() == dst.len(),
        xor_all(dst, vs)[i] == dst[i] ^ xor_sum(|j: int| vs[j][i], vs.len() as int),
{
    lemma_xor_all_len(dst, vs);
    lemma_xor_all_at(dst, vs, i);
}

/// The share of two groups of secrets is the XOR of their shares.
pub proof fn law_shares_add_up(a: Seq<Seq<u8>>, b: Seq<Seq<u8>>, round: u32, n: nat)
    ensures
        share(a + b, round, n) == vxor(share(a, round, n), share(b, round, n)),
{
    let x = share(a, round, n);
    let y = share(b, round, n);
    let z = share(a + b, round, n);
    lemma_xor_vector_len(prefixed(a, XOR_ROUND_DOMAIN), round, n);
    lemma_xor_vector_len(prefixed(b, XOR_ROUND_DOMAIN), round, n);
    lemma_xor_vector_len(prefixed(a + b, XOR_ROUND_DOMAIN), round, n);
    assert forall|i: int| 0 <= i < n implies z[i] == vxor(x, y)[i] by {
        law_share_is_the_keystreams(a, round, n, i);
        law_share_is_the_keystreams(b, round, n, i);
        law_share_is_the_keystreams(a + b, round, n, i);
        let g = |s: Seq<u8>| ctr_byte(seq![1u8] + s, round, (i / 16) as nat, i % 16);
        let both = a + b;
        lemma_xor_sum_append(g, a, b);
        lemma_xor_sum_same(
            |s: int| ctr_byte(seq![1u8] + both[s], round, (i / 16) as nat, i % 16),
            |s: int| g(both[s]),
            both.len() as int,
        );
        lemma_xor_sum_same(
            |s: int| ctr_byte(seq![1u8] + a[s], round, (i / 16) as nat, i % 16),
            |s: int| g(a[s]),
            a.len() as int,
        );
        lemma_xor_sum_same(
            |s: int| ctr_byte(seq![1u8] + b[s], round, (i / 16) as nat, i % 16),
            |s: int| g(b[s]),
            b.len() as int,
        );
    }
    assert(z =~= vxor(x, y));
}

/// The contributions of the clients, blinded.
pub open spec fn all_blinded(
    rows: Seq<Seq<Seq<u8>>>,
    round: u32,
    contents: Seq<Seq<u8>>,
) -> Seq<Seq<u8>> {
    Seq::new(contents.len(), |c: int| blinded(rows[c], round, contents[c]))
}

/// The shares of the servers.
pub open spec fn all_shares(
    rows: Seq<Seq<Seq<u8>>>,
    servers: nat,
    round: u32,
    n: nat,
) -> Seq<Seq<u8>> {
    Seq::new(servers, |s: int| share(column(rows, s), round, n))
}

/// The pads cancel: XORing every server's share into the XOR of the blinded
/// contributions leaves the XOR of the plaintext contributions. Row `c` lists
/// the secrets that client `c` shares with each of `servers` servers.
pub proof fn law_pads_cancel(
    rows: Seq<Seq<Seq<u8>>>,
    servers: nat,
    round: u32,
    contents: Seq<Seq<u8>>,
    n: nat,
)
    requires
        rows.len() == contents.len(),
        forall|c: int| 0 <= c < rows.len() ==> (#[trigger] rows[c]).len() == servers,
        all_of_len(contents, n),
    ensures
        all_of_len(all_blinded(rows, round, contents), n),
        all_of_len(all_shares(rows, servers, round, n), n),
        xor_all(
            xor_all(xzero(n), all_blinded(rows, round, contents)),
            all_shares(rows, servers, round, n),
        ) == xor_all(xzero(n), contents),
{
    let clients = contents.len() as int;
    let bs = all_blinded(rows, round, contents);
    let ss = all_shares(rows, servers, round, n);
    let agg = xor_all(xzero(n), bs);
    let out = xor_all(agg, ss);
    let want = xor_all(xzero(n), contents);
    assert forall|c: int| 0 <= c < bs.len() implies (#[trigger] bs[c]).len() == n by {
        assert(contents[c].len() == n);
    }
    assert forall|s: int| 0 <= s < ss.len() implies (#[trigger] ss[s]).len() == n by {
        lemma_xor_vector_len(prefixed(column(rows, s), XOR_ROUND_DOMAIN), round, n);
    }
    lemma_xor_all_len(xzero(n), bs);
    lemma_xor_all_len(agg, ss);
    lemma_xor_all_len(xzero(n), contents);
    assert forall|i: int| 0 <= i < n implies out[i] == want[i] by {
        let pad = |c: int, s: int| xor_pad(seq![XOR_ROUND_DOMAIN] + rows[c][s], round, n)[i];
        let content = |c: int| contents[c][i];
        let row_sum = |c: int| xor_sum(|s: int| pad(c, s), servers as int);
        let col_sum = |s: int| xor_sum(|c: int| pad(c, s), clients);
        let b_at = |c: int| bs[c][i];
        let s_at = |s: int| ss[s][i];
        let mixed = |c: int| content(c) ^ row_sum(c);
        assert forall|c: int| 0 <= c < clients implies #[trigger] b_at(c) == mixed(c) by {
            assert(rows[c].len() == servers);
            let row = prefixed(rows[c], XOR_ROUND_DOMAIN);
            lemma_xor_vector_at(row, round, n, i);
            lemma_xor_sum_same(
                |s: int| xor_pad(row[s], round, n)[i],
                |s: int| pad(c, s),
                servers as int,
            );
            assert(contents[c].len() == n);
        }
        assert forall|s: int| 0 <= s < servers implies #[trigger] s_at(s) == col_sum(s) by {
            let col = prefixed(column(rows, s), XOR_ROUND_DOMAIN);
            lemma_xor_vector_at(col, round, n, i);
            lemma_xor_sum_same(|c: int| xor_pad(col[c], round, n)[i], |c: int| pad(c, s), clients);
        }
        let total_row = xor_sum(row_sum, clients);
        let total_content = xor_sum(content, clients);
        lemma_xor_sum_same(b_at, mixed, clients);
        lemma_xor_sum_same(s_at, col_sum, servers as int);
        lemma_xor_sum_adds(content, row_sum, clients);
        lemma_xor_sum_same(mixed, |c: int| content(c) ^ row_sum(c), clients);
        lemma_xor_sum_swap(pad, clients, servers as int);
        lemma_xor_sum_same(row_sum, |c: int| xor_sum(|s: int| pad(c, s), servers as int), clients);
        lemma_xor_sum_same(col_sum, |s: int| xor_sum(|c: int| pad(c, s), clients), servers as int);
        lemma_xor_all_at(xzero(n), bs, i);
        lemma_xor_sum_same(|j: int| bs[j][i], b_at, clients);
        lemma_xor_all_at(xzero(n), contents, i);
        lemma_xor_sum_same(|j: int| contents[j][i], content, clients);
        lemma_xor_all_at(agg, ss, i);
        lemma_xor_sum_same(|j: int| ss[j][i], s_at, servers as int);
        lemma_xor(0, total_content ^ total_row, total_row, 0);
        lemma_xor(total_content, total_row, 0, 0);
    }
    assert(out =~= want);
}

} // verus!
