//! What a round of the 1-round session gives back.

use vstd::prelude::*;

use crate::collections::{in_order, law_values_at_keys, values_of};
use crate::crypto::fields::{all_canonical, canonical, P};
use crate::crypto::types::{PublicKey, ServerId};
use crate::auction::iblt::IbltError;
use crate::encoders::iblt_msg::{IbltMsgError, IbltMsgParams};
use crate::encoders::laws::{
    bare_payloads, can_ride, contribution, contributions, law_summed_contributions_decode,
    payloads_peelable, present, Keyed,
};
use crate::primitives::{column, field_round};

use super::one_round::{
    blinded_of, combined, contributed, repeated_server, server_before, shared, shares_of,
    stray_client, stray_server, Contributed, Objection, Shared,
};

verus! {

/// A client: its key, the secrets that it shares with the servers, and the
/// payload that it sends, if it sends one.
pub struct Sender {
    pub key: Seq<u8>,
    pub secrets: Map<ServerId, Seq<u8>>,
    pub payload: Option<Keyed>,
}

/// A server: its identifier and the secrets that it shares with the clients.
pub struct Helper {
    pub id: ServerId,
    pub secrets: Map<Seq<u8>, Seq<u8>>,
}

/// The keys of clients.
pub open spec fn sender_keys(cs: Seq<Sender>) -> Seq<Seq<u8>> {
    Seq::new(cs.len(), |c: int| cs[c].key)
}

/// The identifiers of servers.
pub open spec fn helper_ids(hs: Seq<Helper>) -> Seq<ServerId> {
    Seq::new(hs.len(), |s: int| hs[s].id)
}

/// The client shares a secret with each of the servers, and with no other.
pub open spec fn knows_helpers(c: Sender, hs: Seq<Helper>) -> bool {
    &&& c.secrets.dom().finite()
    &&& forall|id: ServerId| #[trigger]
        c.secrets.contains_key(id) <==> helper_ids(hs).contains(id)
}

/// The server shares a secret with each of the clients, and with no other.
pub open spec fn knows_senders(h: Helper, cs: Seq<Sender>) -> bool {
    &&& h.secrets.dom().finite()
    &&& forall|k: Seq<u8>| #[trigger]
        h.secrets.contains_key(k) <==> sender_keys(cs).contains(k)
}

/// Clients and servers have distinct names, know each other, and hold the same
/// secret on both sides.
pub open spec fn acquainted(cs: Seq<Sender>, hs: Seq<Helper>) -> bool {
    &&& sender_keys(cs).no_duplicates()
    &&& helper_ids(hs).no_duplicates()
    &&& forall|c: int| 0 <= c < cs.len() ==> knows_helpers(#[trigger] cs[c], hs)
    &&& forall|s: int| 0 <= s < hs.len() ==> knows_senders(#[trigger] hs[s], cs)
    &&& forall|c: int, s: int|
        0 <= c < cs.len() && 0 <= s < hs.len() ==> (#[trigger] cs[c]).secrets[hs[s].id] == (
        #[trigger] hs[s]).secrets[cs[c].key]
}

/// Every client can make its contribution.
pub open spec fn senders_ready(params: IbltMsgParams, round: u32, cs: Seq<Sender>) -> bool {
    forall|c: int|
        0 <= c < cs.len() ==> {
            let who = #[trigger] cs[c];
            &&& contributed(params, round, who.secrets, who.payload) is Ok
            &&& who.payload matches Some(k) ==> can_ride(k, params.max_payload_bytes as nat)
        }
}

/// The contributions of the clients.
pub open spec fn sent(params: IbltMsgParams, round: u32, cs: Seq<Sender>) -> Seq<Contributed> {
    Seq::new(cs.len(), |c: int| contributed(params, round, cs[c].secrets, cs[c].payload)->Ok_0)
}

/// The shares of the servers.
pub open spec fn helped(params: IbltMsgParams, round: u32, hs: Seq<Helper>) -> Seq<Shared> {
    Seq::new(hs.len(), |s: int| shared(params, round, hs[s].id, hs[s].secrets)->Ok_0)
}

/// The payloads that clients send, with their keys.
pub open spec fn payloads_sent(cs: Seq<Sender>) -> Seq<Option<Keyed>> {
    Seq::new(cs.len(), |c: int| cs[c].payload)
}

/// The secret of client `c` and server `s` at position `s` of row `c`.
spec fn secret_rows(cs: Seq<Sender>, hs: Seq<Helper>) -> Seq<Seq<Seq<u8>>> {
    Seq::new(cs.len(), |c: int| helper_ids(hs).map_values(|id: ServerId| cs[c].secrets[id]))
}

proof fn lemma_no_strays(cs: Seq<Contributed>, ss: Seq<Shared>, round: u32, i: int)
    requires
        0 <= i,
        forall|k: int| 0 <= k < cs.len() ==> (#[trigger] cs[k]).round == round,
        forall|k: int| 0 <= k < ss.len() ==> (#[trigger] ss[k]).round == round,
    ensures
        stray_client(cs, round, i) is None,
        stray_server(ss, round, i) is None,
    decreases cs.len() + ss.len() - i,
{
    if i < cs.len() || i < ss.len() {
        lemma_no_strays(cs, ss, round, i + 1);
    }
}

proof fn lemma_no_repeats(ss: Seq<Shared>, i: int)
    requires
        0 <= i,
        forall|j: int, k: int|
            0 <= j < k < ss.len() ==> (#[trigger] ss[j]).server_id != (#[trigger] ss[k]).server_id,
    ensures
        repeated_server(ss, i) is None,
    decreases ss.len() - i,
{
    if i < ss.len() {
        assert(!server_before(ss, i));
        lemma_no_repeats(ss, i + 1);
    }
}

/// A table and the same table with an entry in it have elements of one length.
proof fn lemma_contribution_len(params: IbltMsgParams, k: Option<Keyed>)
    ensures
        contribution(params, k).elements().len() == params.blank().elements().len(),
{
}

/// The heart of the session: when clients and servers hold the same secrets,
/// the payloads that went in come out, in some order, whatever the order of the
/// clients and of the servers, exactly if their entries can be peeled, as that of
/// one payload always can. A round whose entries cannot be peeled reports a stall.
pub proof fn law_round_gives_payloads_back(
    params: IbltMsgParams,
    round: u32,
    cs: Seq<Sender>,
    hs: Seq<Helper>,
)
    requires
        params.ok(),
        cs.len() < P,
        hs.len() <= usize::MAX,
        acquainted(cs, hs),
        senders_ready(params, round, cs),
    ensures
        forall|s: int|
            0 <= s < hs.len() ==> shared(params, round, (#[trigger] hs[s]).id, hs[s].secrets) is Ok,
        match combined(
            params,
            round,
            sent(params, round, cs),
            helped(params, round, hs),
            hs.len() as usize,
        ) {
            Ok(out) => {
                &&& payloads_peelable(params, present(payloads_sent(cs)))
                &&& out.to_multiset() == bare_payloads(present(payloads_sent(cs))).to_multiset()
            },
            Err(e) => {
                &&& !payloads_peelable(params, present(payloads_sent(cs)))
                &&& e == Objection::Encoder(IbltMsgError::Iblt(IbltError::PeelStalled))
            },
        },
        present(payloads_sent(cs)).len() <= 1 ==> payloads_peelable(
            params,
            present(payloads_sent(cs)),
        ),
{
    let n = params.blank().elements().len();
    let ids = helper_ids(hs);
    let keys = sender_keys(cs);
    let rows = secret_rows(cs, hs);
    let contents = contributions(params, payloads_sent(cs));
    let bs = sent(params, round, cs);
    let ss = helped(params, round, hs);
    assert forall|c: int| 0 <= c < cs.len() implies (#[trigger] rows[c]).len() == hs.len()
        && field_round::pads_exist(rows[c], round, n) && bs[c].round == round && bs[c].blinded
        == field_round::blinded(rows[c], round, contents[c]) && contents[c].len() == n by {
        let who = cs[c];
        let mine = values_of(in_order::<ServerId, Seq<u8>>(who.secrets));
        assert(knows_helpers(who, hs));
        assert(contributed(params, round, who.secrets, who.payload) is Ok);
        lemma_contribution_len(params, who.payload);
        law_values_at_keys::<ServerId, Seq<u8>>(who.secrets, ids);
        assert(rows[c] =~= ids.map_values(|k: ServerId| who.secrets[k]));
        field_round::law_share_ignores_order(mine, rows[c], round, n);
    }
    assert(field_round::rows_ok(rows, hs.len(), round, n));
    assert forall|s: int| 0 <= s < hs.len() implies shared(
        params,
        round,
        (#[trigger] hs[s]).id,
        hs[s].secrets,
    ) is Ok && ss[s].round == round && ss[s].server_id == hs[s].id && ss[s].share
        == field_round::share(column(rows, s), round, n) by {
        let who = hs[s];
        let mine = values_of(in_order::<PublicKey, Seq<u8>>(who.secrets));
        assert(knows_senders(who, cs));
        law_values_at_keys::<PublicKey, Seq<u8>>(who.secrets, keys);
        let col = column(rows, s);
        assert(col =~= keys.map_values(|k: Seq<u8>| who.secrets[k])) by {
            assert forall|c: int| 0 <= c < cs.len() implies #[trigger] col[c]
                == who.secrets[keys[c]] by {
                assert(cs[c].secrets[hs[s].id] == hs[s].secrets[cs[c].key]);
                assert(rows[c][s] == cs[c].secrets[ids[s]]);
            }
        }
        field_round::lemma_column_pads(rows, hs.len(), round, n, s);
        field_round::law_share_ignores_order(col, mine, round, n);
    }
    assert forall|j: int, k: int| 0 <= j < k < ss.len() implies (#[trigger] ss[j]).server_id != (
    #[trigger] ss[k]).server_id by {
        assert(hs[j].id == ids[j] && hs[k].id == ids[k]);
    }
    assert forall|k: int| 0 <= k < bs.len() implies (#[trigger] bs[k]).round == round by {
        assert(rows[k].len() == hs.len());
    }
    assert forall|k: int| 0 <= k < ss.len() implies (#[trigger] ss[k]).round == round by {
        assert(hs[k].id == ids[k]);
    }
    lemma_no_strays(bs, ss, round, 0);
    lemma_no_repeats(ss, 0);
    let blinded = blinded_of(bs);
    let shares = shares_of(ss);
    assert(blinded =~= field_round::all_blinded(rows, round, contents)) by {
        assert forall|c: int| 0 <= c < cs.len() implies blinded[c] == field_round::blinded(
            rows[c],
            round,
            contents[c],
        ) by {
            assert(rows[c].len() == hs.len());
        }
    }
    assert(shares =~= field_round::all_shares(rows, hs.len(), round, n)) by {
        assert forall|s: int| 0 <= s < hs.len() implies shares[s] == field_round::share(
            column(rows, s),
            round,
            n,
        ) by {
            assert(hs[s].id == ids[s]);
        }
    }
    assert(field_round::all_of_len(contents, n)) by {
        assert forall|c: int| 0 <= c < contents.len() implies (#[trigger] contents[c]).len()
            == n by {
            assert(rows[c].len() == hs.len());
        }
    }
    field_round::law_pads_cancel(rows, hs.len(), round, contents, n);
    assert forall|c: int| 0 <= c < blinded.len() implies all_canonical(#[trigger] blinded[c]) by {
        assert(rows[c].len() == hs.len() && field_round::pads_exist(rows[c], round, n));
        field_round::lemma_share_canonical(rows[c], round, n);
        let b = blinded[c];
        assert forall|i: int| 0 <= i < b.len() implies canonical(#[trigger] b[i]) by {}
    }
    assert forall|s: int| 0 <= s < shares.len() implies all_canonical(#[trigger] shares[s]) by {
        field_round::lemma_column_pads(rows, hs.len(), round, n, s);
        field_round::lemma_share_canonical(column(rows, s), round, n);
    }
    let ks = payloads_sent(cs);
    assert forall|c: int| 0 <= c < ks.len() implies (#[trigger] ks[c] matches Some(k) ==> can_ride(
        k,
        params.max_payload_bytes as nat,
    )) by {
        assert(cs[c].payload == ks[c]);
    }
    law_summed_contributions_decode(params, ks);
}

/// A round with one payload never stalls: that payload, and no other, comes out.
pub proof fn law_single_payload_comes_back(
    params: IbltMsgParams,
    round: u32,
    cs: Seq<Sender>,
    hs: Seq<Helper>,
    c: int,
    k: Keyed,
)
    requires
        params.ok(),
        cs.len() < P,
        hs.len() <= usize::MAX,
        acquainted(cs, hs),
        senders_ready(params, round, cs),
        0 <= c < cs.len(),
        cs[c].payload == Some(k),
        forall|d: int| 0 <= d < cs.len() && d != c ==> (#[trigger] cs[d]).payload is None,
    ensures
        combined(
            params,
            round,
            sent(params, round, cs),
            helped(params, round, hs),
            hs.len() as usize,
        ) == Ok::<Seq<Seq<u8>>, Objection>(seq![k.payload]),
{
    broadcast use vstd::seq_lib::group_to_multiset_ensures;

    let ks = payloads_sent(cs);
    law_round_gives_payloads_back(params, round, cs, hs);
    lemma_one_present(ks, c, k);
    let out = combined(
        params,
        round,
        sent(params, round, cs),
        helped(params, round, hs),
        hs.len() as usize,
    )->Ok_0;
    let want = bare_payloads(present(ks));
    assert(want =~= seq![k.payload]);
    assert(out.len() == out.to_multiset().len());
    assert(want.len() == want.to_multiset().len());
    assert(out.contains(out[0]));
    assert(out.to_multiset().count(out[0]) > 0);
    assert(want.contains(out[0]));
    assert(out =~= want);
}

/// One payload among contributions without any is the one that is present.
proof fn lemma_one_present(ks: Seq<Option<Keyed>>, c: int, k: Keyed)
    requires
        0 <= c < ks.len(),
        ks[c] == Some(k),
        forall|d: int| 0 <= d < ks.len() && d != c ==> (#[trigger] ks[d]) is None,
    ensures
        present(ks) == seq![k],
    decreases ks.len(),
{
    let init = ks.drop_last();
    assert(ks.last() == ks[ks.len() - 1]);
    if c == ks.len() - 1 {
        lemma_none_present(init);
        assert(present(ks) =~= seq![k]);
    } else {
        lemma_one_present(init, c, k);
    }
}

proof fn lemma_none_present(ks: Seq<Option<Keyed>>)
    requires
        forall|d: int| 0 <= d < ks.len() ==> (#[trigger] ks[d]) is None,
    ensures
        present(ks) == Seq::<Keyed>::empty(),
    decreases ks.len(),
{
    if ks.len() > 0 {
        assert(ks.last() == ks[ks.len() - 1]);
        lemma_none_present(ks.drop_last());
    }
}

} // verus!
