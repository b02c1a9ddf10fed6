//! Field-additive blinded broadcast over `Vec<u64>` (elements in `F_p`).
//!
//! Carries the auction round of the 2-round protocol and the IBLT-message
//! round of the 1-round protocol. Plaintexts are field elements in
//! [`crate::crypto::fields`].

use vstd::arithmetic::div_mod::{lemma_add_mod_noop, lemma_mod_twice, lemma_sub_mod_noop};
use vstd::prelude::*;

use crate::bytes::to_vec;
use crate::crypto::blinding::{
    blinding_vector, derive_blinding_vector, domain_prefixed, field_pad, field_pad_exists,
    field_pads_exist, has_field_pads,
};
use crate::crypto::blinding_laws::law_field_blinding_adds_up;
use crate::crypto::fields::{
    add_mod_slice, all_canonical, canonical, sub_mod_slice, vadd, vsub, vzero, zeros, P,
};
use crate::crypto::types::SharedKey;
use crate::sorting::{lemma_images, views};
use crate::sums::{
    lemma_sum_adds, lemma_sum_append, lemma_sum_mod, lemma_sum_permuted, lemma_sum_same,
    lemma_sum_swap, sum,
};

use super::{column, prefixed, FIELD_ROUND_DOMAIN};

verus! {

/// The vectors behind a slice of slices.
pub open spec fn word_views(s: Seq<&[u64]>) -> Seq<Seq<u64>> {
    Seq::new(s.len(), |i: int| s[i]@)
}

/// Every vector has `n` elements.
pub open spec fn all_of_len(vs: Seq<Seq<u64>>, n: nat) -> bool {
    forall|i: int| 0 <= i < vs.len() ==> (#[trigger] vs[i]).len() == n
}

/// `dst` with every vector of `vs` added to it.
pub open spec fn add_all(dst: Seq<u64>, vs: Seq<Seq<u64>>) -> Seq<u64>
    decreases vs.len(),
{
    if vs.len() == 0 {
        dst
    } else {
        vadd(add_all(dst, vs.drop_last()), vs.last())
    }
}

/// `dst` with every vector of `vs` subtracted from it.
pub open spec fn sub_all(dst: Seq<u64>, vs: Seq<Seq<u64>>) -> Seq<u64>
    decreases vs.len(),
{
    if vs.len() == 0 {
        dst
    } else {
        vsub(sub_all(dst, vs.drop_last()), vs.last())
    }
}

/// The sum of client contributions; the empty vector if there are none.
pub open spec fn aggregated(vs: Seq<Seq<u64>>) -> Seq<u64> {
    if vs.len() == 0 {
        Seq::empty()
    } else {
        add_all(vzero(vs[0].len()), vs)
    }
}

/// A contribution blinded with the pads of `secrets`.
pub open spec fn blinded(secrets: Seq<Seq<u8>>, round: u32, contents: Seq<u64>) -> Seq<u64> {
    vadd(contents, share(secrets, round, contents.len()))
}

/// The share of a server that holds `secrets`.
pub open spec fn share(secrets: Seq<Seq<u8>>, round: u32, n: nat) -> Seq<u64> {
    blinding_vector(prefixed(secrets, FIELD_ROUND_DOMAIN), round, n)
}

/// Every secret has a pad of `n` elements for a field round.
pub open spec fn pads_exist(secrets: Seq<Seq<u8>>, round: u32, n: nat) -> bool {
    field_pads_exist(prefixed(secrets, FIELD_ROUND_DOMAIN), round, n)
}

fn field_prefixed(secrets: &[SharedKey]) -> (r: Vec<SharedKey>)
    ensures
        views(r@) == prefixed(views(secrets@), FIELD_ROUND_DOMAIN),
{
    let mut out: Vec<SharedKey> = Vec::new();
    let mut i: usize = 0;
    while i < secrets.len()
        invariant
            i <= secrets@.len(),
            out@.len() == i,
            forall|k: int|
                0 <= k < i ==> (#[trigger] out@[k])@ == seq![FIELD_ROUND_DOMAIN] + secrets@[k]@,
        decreases secrets@.len() - i,
    {
        out.push(domain_prefixed(&secrets[i], FIELD_ROUND_DOMAIN));
        i = i + 1;
    }
    proof {
        assert(views(out@) =~= prefixed(views(secrets@), FIELD_ROUND_DOMAIN));
    }
    out
}

/// Add the PRF pads from every peer-shared secret to `contents` in-place.
pub fn client_blind(secrets: &[SharedKey], round: u32, contents: Vec<u64>) -> (r: Vec<u64>)
    requires
        pads_exist(views(secrets@), round, contents@.len()),
    ensures
        r@ == blinded(views(secrets@), round, contents@),
        r@.len() == contents@.len(),
{
    let mut contents = contents;
    let pad = server_share(secrets, round, contents.len());
    add_mod_slice(&mut contents, &pad);
    contents
}

/// [`client_blind`] if every secret has a pad of that length.
pub fn checked_client_blind(secrets: &[SharedKey], round: u32, contents: Vec<u64>) -> (r: Option<
    Vec<u64>,
>)
    ensures
        match r {
            Some(v) => pads_exist(views(secrets@), round, contents@.len()) && v@ == blinded(
                views(secrets@),
                round,
                contents@,
            ) && v@.len() == contents@.len(),
            None => !pads_exist(views(secrets@), round, contents@.len()),
        },
{
    let tagged = field_prefixed(secrets);
    if has_field_pads(&tagged, round, contents.len()) {
        Some(client_blind(secrets, round, contents))
    } else {
        None
    }
}

/// Compute this server's share for a round of length `len`.
pub fn server_share(secrets: &[SharedKey], round: u32, len: usize) -> (r: Vec<u64>)
    requires
        pads_exist(views(secrets@), round, len as nat),
    ensures
        r@ == share(views(secrets@), round, len as nat),
        r@.len() == len,
{
    let tagged = field_prefixed(secrets);
    derive_blinding_vector(&tagged, round, len)
}

/// [`server_share`] if every secret has a pad of that length.
pub fn checked_server_share(secrets: &[SharedKey], round: u32, len: usize) -> (r: Option<Vec<u64>>)
    ensures
        match r {
            Some(v) => pads_exist(views(secrets@), round, len as nat) && v@ == share(
                views(secrets@),
                round,
                len as nat,
            ) && v@.len() == len,
            None => !pads_exist(views(secrets@), round, len as nat),
        },
{
    let tagged = field_prefixed(secrets);
    if has_field_pads(&tagged, round, len) {
        Some(server_share(secrets, round, len))
    } else {
        None
    }
}

/// Sum every blinded client contribution into a caller-provided `dst` (mod p).
///
/// `dst.len()` must match each source length; `dst` is *not* pre-zeroed, so
/// this can extend a running aggregate.
pub fn aggregate_clients_into(dst: &mut [u64], sources: &[&[u64]])
    requires
        all_of_len(word_views(sources@), old(dst)@.len()),
    ensures
        final(dst)@ == add_all(old(dst)@, word_views(sources@)),
        final(dst)@.len() == old(dst)@.len(),
{
    let ghost all = word_views(sources@);
    let mut i: usize = 0;
    proof {
        assert(all.take(0) =~= Seq::empty());
    }
    while i < sources.len()
        invariant
            i <= sources@.len(),
            all == word_views(sources@),
            dst@ == add_all(old(dst)@, all.take(i as int)),
            dst@.len() == old(dst)@.len(),
        decreases sources@.len() - i,
    {
        proof {
            assert(all.take(i + 1).drop_last() =~= all.take(i as int));
        }
        add_mod_slice(dst, sources[i]);
        i = i + 1;
    }
    proof {
        assert(all.take(i as int) =~= all);
    }
}

/// Convenience wrapper that allocates `dst` once and returns it.
pub fn aggregate_clients(sources: &[&[u64]]) -> (dst: Vec<u64>)
    requires
        sources@.len() > 0 ==> all_of_len(word_views(sources@), sources@[0]@.len()),
    ensures
        dst@ == aggregated(word_views(sources@)),
{
    if sources.len() == 0 {
        return Vec::new();
    }
    let mut dst = zeros(sources[0].len());
    aggregate_clients_into(&mut dst, sources);
    dst
}

/// Subtract every server share from `dst` (mod p). Caller supplies `dst`
/// already populated with the aggregate.
pub fn combine_partials_into(dst: &mut [u64], partials: &[&[u64]])
    requires
        all_of_len(word_views(partials@), old(dst)@.len()),
    ensures
        final(dst)@ == sub_all(old(dst)@, word_views(partials@)),
        final(dst)@.len() == old(dst)@.len(),
{
    let ghost all = word_views(partials@);
    let mut i: usize = 0;
    proof {
        assert(all.take(0) =~= Seq::empty());
    }
    while i < partials.len()
        invariant
            i <= partials@.len(),
            all == word_views(partials@),
            dst@ == sub_all(old(dst)@, all.take(i as int)),
            dst@.len() == old(dst)@.len(),
        decreases partials@.len() - i,
    {
        proof {
            assert(all.take(i + 1).drop_last() =~= all.take(i as int));
        }
        sub_mod_slice(dst, partials[i]);
        i = i + 1;
    }
    proof {
        assert(all.take(i as int) =~= all);
    }
}

/// Convenience wrapper: clone `agg` into a fresh `dst` then subtract partials.
pub fn combine_partials(agg: &[u64], partials: &[&[u64]]) -> (dst: Vec<u64>)
    requires
        all_of_len(word_views(partials@), agg@.len()),
    ensures
        dst@ == sub_all(agg@, word_views(partials@)),
        dst@.len() == agg@.len(),
{
    let mut dst = to_vec(agg);
    combine_partials_into(&mut dst, partials);
    dst
}

// ---------------------------------------------------------------------------
// Laws
// ---------------------------------------------------------------------------

/// Element `i` of a sum of vectors.
pub proof fn lemma_add_all_at(dst: Seq<u64>, vs: Seq<Seq<u64>>, i: int)
    requires
        all_of_len(vs, dst.len()),
        0 <= i < dst.len(),
        canonical(dst[i]) || vs.len() > 0,
    ensures
        add_all(dst, vs).len() == dst.len(),
        add_all(dst, vs)[i] == (dst[i] + sum(|j: int| vs[j][i] as int, vs.len() as int)) % (
        P as int),
    decreases vs.len(),
{
    let p = P as int;
    let f = |j: int| vs[j][i] as int;
    if vs.len() == 0 {
        vstd::arithmetic::div_mod::lemma_small_mod(dst[i] as nat, P as nat);
    } else {
        let init = vs.drop_last();
        assert(all_of_len(init, dst.len())) by {
            assert forall|k: int| 0 <= k < init.len() implies (#[trigger] init[k]).len()
                == dst.len() by {
                assert(init[k] == vs[k]);
            }
        }
        let n = vs.len() - 1;
        let s = dst[i] + sum(f, n);
        assert(vs[n].len() == dst.len());
        if n > 0 {
            lemma_add_all_at(dst, init, i);
            lemma_sum_same(|j: int| init[j][i] as int, f, n);
        } else {
            assert(init =~= Seq::empty());
            assert(add_all(dst, init) == dst);
            assert(sum(f, n) == 0);
        }
        lemma_add_mod_noop(s, vs[n][i] as int, p);
        lemma_add_mod_noop(s % p, vs[n][i] as int, p);
        lemma_mod_twice(s, p);
    }
}

/// Element `i` of a difference of vectors.
pub proof fn lemma_sub_all_at(dst: Seq<u64>, vs: Seq<Seq<u64>>, i: int)
    requires
        all_of_len(vs, dst.len()),
        0 <= i < dst.len(),
        canonical(dst[i]) || vs.len() > 0,
    ensures
        sub_all(dst, vs).len() == dst.len(),
        sub_all(dst, vs)[i] == (dst[i] - sum(|j: int| vs[j][i] as int, vs.len() as int)) % (
        P as int),
    decreases vs.len(),
{
    let p = P as int;
    let f = |j: int| vs[j][i] as int;
    if vs.len() == 0 {
        vstd::arithmetic::div_mod::lemma_small_mod(dst[i] as nat, P as nat);
    } else {
        let init = vs.drop_last();
        assert(all_of_len(init, dst.len())) by {
            assert forall|k: int| 0 <= k < init.len() implies (#[trigger] init[k]).len()
                == dst.len() by {
                assert(init[k] == vs[k]);
            }
        }
        let n = vs.len() - 1;
        let s = dst[i] - sum(f, n);
        assert(vs[n].len() == dst.len());
        if n > 0 {
            lemma_sub_all_at(dst, init, i);
            lemma_sum_same(|j: int| init[j][i] as int, f, n);
        } else {
            assert(init =~= Seq::empty());
            assert(sub_all(dst, init) == dst);
            assert(sum(f, n) == 0);
        }
        lemma_sub_mod_noop(s, vs[n][i] as int, p);
        lemma_sub_mod_noop(s % p, vs[n][i] as int, p);
        lemma_mod_twice(s, p);
    }
}

/// Element `i` of a blinding vector.
proof fn lemma_blinding_vector_at(secrets: Seq<Seq<u8>>, round: u32, n: nat, i: int)
    requires
        field_pads_exist(secrets, round, n),
        0 <= i < n,
    ensures
        blinding_vector(secrets, round, n).len() == n,
        blinding_vector(secrets, round, n)[i] == sum(
            |s: int| field_pad(secrets[s], round, n)[i] as int,
            secrets.len() as int,
        ) % (P as int),
{
    law_field_blinding_adds_up(secrets, round, n, i);
}

/// The contributions of the clients, blinded.
pub open spec fn all_blinded(
    rows: Seq<Seq<Seq<u8>>>,
    round: u32,
    contents: Seq<Seq<u64>>,
) -> Seq<Seq<u64>> {
    Seq::new(contents.len(), |c: int| blinded(rows[c], round, contents[c]))
}

/// The shares of the servers.
pub open spec fn all_shares(
    rows: Seq<Seq<Seq<u8>>>,
    servers: nat,
    round: u32,
    n: nat,
) -> Seq<Seq<u64>> {
    Seq::new(servers, |s: int| share(column(rows, s), round, n))
}

/// Row `c` lists the secrets that client `c` shares with each of `servers`
/// servers, and each of them has a pad of `n` elements.
pub open spec fn rows_ok(rows: Seq<Seq<Seq<u8>>>, servers: nat, round: u32, n: nat) -> bool {
    forall|c: int|
        0 <= c < rows.len() ==> (#[trigger] rows[c]).len() == servers && pads_exist(
            rows[c],
            round,
            n,
        )
}

pub proof fn lemma_column_pads(rows: Seq<Seq<Seq<u8>>>, servers: nat, round: u32, n: nat, s: int)
    requires
        rows_ok(rows, servers, round, n),
        0 <= s < servers,
    ensures
        pads_exist(column(rows, s), round, n),
{
    let tagged = prefixed(column(rows, s), FIELD_ROUND_DOMAIN);
    assert forall|c: int| 0 <= c < tagged.len() implies #[trigger] field_pad_exists(
        tagged[c],
        round,
        n,
    ) by {
        assert(rows[c].len() == servers && pads_exist(rows[c], round, n));
        let row = prefixed(rows[c], FIELD_ROUND_DOMAIN);
        assert(field_pad_exists(row[s], round, n));
        assert(row[s] == tagged[c]);
    }
}

/// The pads cancel: subtracting every server's share from the sum of the
/// blinded contributions leaves the sum of the plaintext contributions.
pub proof fn law_pads_cancel(
    rows: Seq<Seq<Seq<u8>>>,
    servers: nat,
    round: u32,
    contents: Seq<Seq<u64>>,
    n: nat,
)
    requires
        rows.len() == contents.len(),
        rows_ok(rows, servers, round, n),
        all_of_len(contents, n),
    ensures
        all_of_len(all_blinded(rows, round, contents), n),
        all_of_len(all_shares(rows, servers, round, n), n),
        sub_all(
            add_all(vzero(n), all_blinded(rows, round, contents)),
            all_shares(rows, servers, round, n),
        ) == add_all(vzero(n), contents),
{
    let p = P as int;
    let clients = contents.len() as int;
    let bs = all_blinded(rows, round, contents);
    let ss = all_shares(rows, servers, round, n);
    let agg = add_all(vzero(n), bs);
    let out = sub_all(agg, ss);
    let want = add_all(vzero(n), contents);
    assert forall|c: int| 0 <= c < bs.len() implies (#[trigger] bs[c]).len() == n by {
        assert(contents[c].len() == n);
    }
    assert forall|s: int| 0 <= s < ss.len() implies (#[trigger] ss[s]).len() == n by {
        lemma_column_pads(rows, servers, round, n, s);
        lemma_blinding_len(prefixed(column(rows, s), FIELD_ROUND_DOMAIN), round, n);
    }
    lemma_add_all_len(vzero(n), bs);
    lemma_add_all_len(vzero(n), contents);
    lemma_sub_all_len(agg, ss);
    assert forall|i: int| 0 <= i < n implies out[i] == want[i] by {
        let pad = |c: int, s: int|
            field_pad(seq![FIELD_ROUND_DOMAIN] + rows[c][s], round, n)[i] as int;
        let content = |c: int| contents[c][i] as int;
        let row_sum = |c: int| sum(|s: int| pad(c, s), servers as int);
        let col_sum = |s: int| sum(|c: int| pad(c, s), clients);
        let b_at = |c: int| bs[c][i] as int;
        let s_at = |s: int| ss[s][i] as int;
        let mixed = |c: int| content(c) + row_sum(c);
        assert forall|c: int| 0 <= c < clients implies #[trigger] b_at(c) % p == mixed(c) % p by {
            assert(rows[c].len() == servers && pads_exist(rows[c], round, n));
            let row = prefixed(rows[c], FIELD_ROUND_DOMAIN);
            lemma_blinding_vector_at(row, round, n, i);
            lemma_sum_same(
                |s: int| field_pad(row[s], round, n)[i] as int,
                |s: int| pad(c, s),
                servers as int,
            );
            assert(contents[c].len() == n);
            lemma_add_mod_noop(content(c), row_sum(c), p);
            lemma_add_mod_noop(content(c), row_sum(c) % p, p);
            lemma_mod_twice(row_sum(c), p);
            lemma_mod_twice(content(c) + row_sum(c) % p, p);
        }
        assert forall|s: int| 0 <= s < servers implies #[trigger] s_at(s) % p == col_sum(s)
            % p by {
            lemma_column_pads(rows, servers, round, n, s);
            let col = prefixed(column(rows, s), FIELD_ROUND_DOMAIN);
            lemma_blinding_vector_at(col, round, n, i);
            lemma_sum_same(
                |c: int| field_pad(col[c], round, n)[i] as int,
                |c: int| pad(c, s),
                clients,
            );
            lemma_mod_twice(col_sum(s), p);
        }
        let total_b = sum(b_at, clients);
        let total_s = sum(s_at, servers as int);
        let total_c = sum(content, clients);
        let total_row = sum(row_sum, clients);
        let total_col = sum(col_sum, servers as int);
        lemma_sum_mod(b_at, mixed, clients, p);
        lemma_sum_mod(s_at, col_sum, servers as int, p);
        lemma_sum_adds(content, row_sum, clients);
        lemma_sum_same(mixed, |c: int| content(c) + row_sum(c), clients);
        lemma_sum_swap(pad, clients, servers as int);
        lemma_sum_same(row_sum, |c: int| sum(|s: int| pad(c, s), servers as int), clients);
        lemma_sum_same(col_sum, |s: int| sum(|c: int| pad(c, s), clients), servers as int);
        lemma_add_all_at(vzero(n), bs, i);
        lemma_sum_same(|j: int| bs[j][i] as int, b_at, clients);
        lemma_add_all_at(vzero(n), contents, i);
        lemma_sum_same(|j: int| contents[j][i] as int, content, clients);
        lemma_sub_all_at(agg, ss, i);
        lemma_sum_same(|j: int| ss[j][i] as int, s_at, servers as int);
        assert(agg[i] == total_b % p);
        assert(out[i] == (agg[i] - total_s) % p);
        assert(total_b % p == (total_c + total_row) % p);
        assert(total_s % p == total_row % p);
        lemma_sub_mod_noop(total_b % p, total_s, p);
        lemma_mod_twice(total_b, p);
        lemma_sub_mod_noop(total_c + total_row, total_row, p);
        assert(total_c + total_row - total_row == total_c);
        assert(want[i] == total_c % p);
    }
    assert(out =~= want);
}

/// A share does not depend on the order of the secrets.
pub proof fn law_share_ignores_order(a: Seq<Seq<u8>>, b: Seq<Seq<u8>>, round: u32, n: nat)
    requires
        a.to_multiset() == b.to_multiset(),
        pads_exist(a, round, n),
    ensures
        pads_exist(b, round, n),
        share(a, round, n) == share(b, round, n),
{
    broadcast use vstd::seq_lib::group_to_multiset_ensures;

    let tag = |s: Seq<u8>| seq![FIELD_ROUND_DOMAIN] + s;
    let ta = prefixed(a, FIELD_ROUND_DOMAIN);
    let tb = prefixed(b, FIELD_ROUND_DOMAIN);
    assert(ta =~= a.map_values(tag));
    assert(tb =~= b.map_values(tag));
    lemma_images(a, b, tag);
    assert forall|k: int| 0 <= k < tb.len() implies #[trigger] field_pad_exists(
        tb[k],
        round,
        n,
    ) by {
        assert(tb.contains(tb[k]));
        assert(tb.to_multiset().count(tb[k]) > 0);
        assert(ta.contains(tb[k]));
        let j = choose|j: int| 0 <= j < ta.len() && ta[j] == tb[k];
        assert(field_pad_exists(ta[j], round, n));
    }
    lemma_blinding_len(ta, round, n);
    lemma_blinding_len(tb, round, n);
    let x = share(a, round, n);
    let y = share(b, round, n);
    assert forall|i: int| 0 <= i < n implies x[i] == y[i] by {
        lemma_blinding_vector_at(ta, round, n, i);
        lemma_blinding_vector_at(tb, round, n, i);
        let g = |s: Seq<u8>| field_pad(s, round, n)[i] as int;
        lemma_sum_permuted(g, ta, tb);
        lemma_sum_same(
            |s: int| field_pad(ta[s], round, n)[i] as int,
            |s: int| g(ta[s]),
            ta.len() as int,
        );
        lemma_sum_same(
            |s: int| field_pad(tb[s], round, n)[i] as int,
            |s: int| g(tb[s]),
            tb.len() as int,
        );
    }
    assert(x =~= y);
}

/// Element `i` of a share is the sum modulo p of element `i` of the field pads
/// of all secrets, each tagged with a zero byte.
pub proof fn law_share_adds_the_pads(secrets: Seq<Seq<u8>>, round: u32, n: nat, i: int)
    requires
        pads_exist(secrets, round, n),
        0 <= i < n,
    ensures
        share(secrets, round, n).len() == n,
        share(secrets, round, n)[i] == sum(
            |s: int| field_pad(seq![0u8] + secrets[s], round, n)[i] as int,
            secrets.len() as int,
        ) % 0x1eeed4e13a526bab,
{
    let tagged = prefixed(secrets, FIELD_ROUND_DOMAIN);
    lemma_blinding_vector_at(tagged, round, n, i);
    lemma_sum_same(
        |s: int| field_pad(tagged[s], round, n)[i] as int,
        |s: int| field_pad(seq![0u8] + secrets[s], round, n)[i] as int,
        secrets.len() as int,
    );
}

/// Element `i` of a blinded contribution is what was contributed plus element
/// `i` of the field pads of all secrets, modulo p.
pub proof fn law_blinding_adds_the_pads(
    secrets: Seq<Seq<u8>>,
    round: u32,
    contents: Seq<u64>,
    i: int,
)
    requires
        pads_exist(secrets, round, contents.len()),
        0 <= i < contents.len(),
    ensures
        blinded(secrets, round, contents).len() == contents.len(),
        blinded(secrets, round, contents)[i] == (contents[i] + sum(
            |s: int| field_pad(seq![0u8] + secrets[s], round, contents.len())[i] as int,
            secrets.len() as int,
        )) % 0x1eeed4e13a526bab,
{
    let p = P as int;
    law_share_adds_the_pads(secrets, round, contents.len(), i);
    let t = sum(
        |s: int| field_pad(seq![0u8] + secrets[s], round, contents.len())[i] as int,
        secrets.len() as int,
    );
    lemma_add_mod_noop(contents[i] as int, t, p);
    lemma_add_mod_noop(contents[i] as int, t % p, p);
    lemma_mod_twice(t, p);
}

/// Element `i` of an aggregate of contributions is their sum modulo p.
pub proof fn law_aggregate_adds_up(vs: Seq<Seq<u64>>, i: int)
    requires
        vs.len() > 0,
        all_of_len(vs, vs[0].len()),
        0 <= i < vs[0].len(),
    ensures
        aggregated(vs).len() == vs[0].len(),
        aggregated(vs)[i] == sum(|j: int| vs[j][i] as int, vs.len() as int) % 0x1eeed4e13a526bab,
{
    lemma_add_all_at(vzero(vs[0].len()), vs, i);
}

/// No contributions make the empty aggregate, and change nothing where there is
/// one.
pub proof fn law_nothing_adds_up_to_nothing(dst: Seq<u64>)
    ensures
        aggregated(Seq::empty()) == Seq::<u64>::empty(),
        add_all(dst, Seq::empty()) == dst,
        sub_all(dst, Seq::empty()) == dst,
{
}

/// Element `i` of a running aggregate with contributions added to it is the sum
/// of all of them modulo p.
pub proof fn law_running_aggregate_adds_up(dst: Seq<u64>, vs: Seq<Seq<u64>>, i: int)
    requires
        all_of_len(vs, dst.len()),
        0 <= i < dst.len(),
        dst[i] < 0x1eeed4e13a526bab || vs.len() > 0,
    ensures
        add_all(dst, vs).len() == dst.len(),
        add_all(dst, vs)[i] == (dst[i] + sum(|j: int| vs[j][i] as int, vs.len() as int))
            % 0x1eeed4e13a526bab,
{
    lemma_add_all_at(dst, vs, i);
}

/// Element `i` of an aggregate with shares taken out of it is the aggregate
/// minus all of them, modulo p.
pub proof fn law_shares_are_taken_out(agg: Seq<u64>, shares: Seq<Seq<u64>>, i: int)
    requires
        all_of_len(shares, agg.len()),
        0 <= i < agg.len(),
        agg[i] < 0x1eeed4e13a526bab || shares.len() > 0,
    ensures
        sub_all(agg, shares).len() == agg.len(),
        sub_all(agg, shares)[i] == (agg[i] - sum(
            |j: int| shares[j][i] as int,
            shares.len() as int,
        )) % 0x1eeed4e13a526bab,
{
    lemma_sub_all_at(agg, shares, i);
}

/// The share of two groups of secrets is the sum of their shares.
pub proof fn law_shares_add_up(a: Seq<Seq<u8>>, b: Seq<Seq<u8>>, round: u32, n: nat)
    requires
        pads_exist(a, round, n),
        pads_exist(b, round, n),
    ensures
        pads_exist(a + b, round, n),
        share(a + b, round, n) == vadd(share(a, round, n), share(b, round, n)),
{
    let ta = prefixed(a, FIELD_ROUND_DOMAIN);
    let tb = prefixed(b, FIELD_ROUND_DOMAIN);
    let tab = prefixed(a + b, FIELD_ROUND_DOMAIN);
    assert forall|k: int| 0 <= k < tab.len() implies #[trigger] field_pad_exists(
        tab[k],
        round,
        n,
    ) by {
        if k < a.len() {
            assert(tab[k] == ta[k]);
            assert(field_pad_exists(ta[k], round, n));
        } else {
            assert(tab[k] == tb[k - a.len()]);
            assert(field_pad_exists(tb[k - a.len()], round, n));
        }
    }
    let x = share(a, round, n);
    let y = share(b, round, n);
    let z = share(a + b, round, n);
    lemma_blinding_len(ta, round, n);
    lemma_blinding_len(tb, round, n);
    lemma_blinding_len(tab, round, n);
    let p = P as int;
    assert forall|i: int| 0 <= i < n implies z[i] == vadd(x, y)[i] by {
        law_share_adds_the_pads(a, round, n, i);
        law_share_adds_the_pads(b, round, n, i);
        law_share_adds_the_pads(a + b, round, n, i);
        let g = |s: Seq<u8>| field_pad(seq![0u8] + s, round, n)[i] as int;
        lemma_sum_append(g, a, b);
        let both = a + b;
        lemma_sum_same(
            |s: int| field_pad(seq![0u8] + both[s], round, n)[i] as int,
            |s: int| g(both[s]),
            both.len() as int,
        );
        lemma_sum_same(
            |s: int| field_pad(seq![0u8] + a[s], round, n)[i] as int,
            |s: int| g(a[s]),
            a.len() as int,
        );
        lemma_sum_same(
            |s: int| field_pad(seq![0u8] + b[s], round, n)[i] as int,
            |s: int| g(b[s]),
            b.len() as int,
        );
        lemma_add_mod_noop(
            sum(|s: int| g(a[s]), a.len() as int),
            sum(|s: int| g(b[s]), b.len() as int),
            p,
        );
    }
    assert(z =~= vadd(x, y));
}

/// A share has the length asked for, and its elements are canonical.
pub proof fn lemma_share_canonical(secrets: Seq<Seq<u8>>, round: u32, n: nat)
    requires
        pads_exist(secrets, round, n),
    ensures
        share(secrets, round, n).len() == n,
        all_canonical(share(secrets, round, n)),
{
    let tagged = prefixed(secrets, FIELD_ROUND_DOMAIN);
    lemma_blinding_len(tagged, round, n);
    let out = share(secrets, round, n);
    assert forall|i: int| 0 <= i < out.len() implies canonical(#[trigger] out[i]) by {
        lemma_blinding_vector_at(tagged, round, n, i);
    }
}

proof fn lemma_blinding_len(secrets: Seq<Seq<u8>>, round: u32, n: nat)
    ensures
        blinding_vector(secrets, round, n).len() == n,
    decreases secrets.len(),
{
    if secrets.len() > 0 {
        lemma_blinding_len(secrets.drop_last(), round, n);
    }
}

pub proof fn lemma_add_all_len(dst: Seq<u64>, vs: Seq<Seq<u64>>)
    ensures
        add_all(dst, vs).len() == dst.len(),
    decreases vs.len(),
{
    if vs.len() > 0 {
        lemma_add_all_len(dst, vs.drop_last());
    }
}

pub proof fn lemma_sub_all_len(dst: Seq<u64>, vs: Seq<Seq<u64>>)
    ensures
        sub_all(dst, vs).len() == dst.len(),
    decreases vs.len(),
{
    if vs.len() > 0 {
        lemma_sub_all_len(dst, vs.drop_last());
    }
}

} // verus!
