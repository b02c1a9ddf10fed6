//! Laws of the single steps of the one-round session: what a contribution and a
//! share are made of, when they combine, and to what.

use vstd::arithmetic::div_mod::{lemma_mod_twice, lemma_sub_mod_noop};
use vstd::prelude::*;

use crate::collections::{in_order, values_of};
use crate::crypto::blinding::field_pad;
use crate::crypto::fields::vzero;
use crate::crypto::hashing::blake3_256;
use crate::crypto::signing::ed25519_signature;
use crate::crypto::types::{KeyError, PublicKey, ServerId};
use crate::encoders::iblt_msg::{payloads_of, usable, IbltMsgError, IbltMsgParams};
use crate::encoders::laws::{contribution, Keyed};
use crate::primitives::field_round;
use crate::protocol::envelope::{Signed, Transcript};
use crate::protocol::messages::{lemma_reduced_is_canonical, words_reduced, Refusal};
use crate::sums::{lemma_sum_same, sum};

use super::one_round::{
    blinded_of, combined, contributed, repeated_server, rows_canonical, server_before, shared,
    shares_of, signed_as, stray_client, stray_server, Contributed, Objection, OneRoundError, Shared,
};

verus! {

/// A contribution is for its round, and each of its elements is the plain one
/// plus the field pads of all secrets, modulo p. A payload that is too long is
/// refused, and so is a keystream that is used up.
pub proof fn law_contributions_are_blinded(
    params: IbltMsgParams,
    round: u32,
    secrets: Map<ServerId, Seq<u8>>,
    payload: Option<Keyed>,
)
    ensures
        ({
            let r = contributed(params, round, secrets, payload);
            let mine = values_of(in_order::<ServerId, Seq<u8>>(secrets));
            let plain = contribution(params, payload).elements();
            let room = usable(params.max_payload_bytes as nat);
            let fits = payload is None || payload->0.payload.len() <= room;
            let pads = field_round::pads_exist(mine, round, plain.len());
            &&& r is Ok <==> fits && pads
            &&& !fits ==> r == Err::<Contributed, Objection>(
                Objection::Encoder(
                    IbltMsgError::PayloadTooLarge {
                        got: payload->0.payload.len() as usize,
                        usable: room as usize,
                    },
                ),
            )
            &&& fits && !pads ==> r == Err::<Contributed, Objection>(
                Objection::Protocol(Refusal::PadExhausted),
            )
            &&& r matches Ok(c) ==> {
                &&& c.round == round
                &&& c.blinded.len() == plain.len()
                &&& forall|i: int|
                    0 <= i < plain.len() ==> #[trigger] c.blinded[i] == (plain[i] + sum(
                        |k: int|
                            field_pad(seq![0u8] + mine[k], round, plain.len())[i] as int,
                        mine.len() as int,
                    )) % 0x1eeed4e13a526bab
            }
        }),
{
    let r = contributed(params, round, secrets, payload);
    if r is Ok {
        let mine = values_of(in_order::<ServerId, Seq<u8>>(secrets));
        let plain = contribution(params, payload).elements();
        let c = r->Ok_0;
        assert forall|i: int| 0 <= i < plain.len() implies #[trigger] c.blinded[i] == (plain[i]
            + sum(
            |k: int| field_pad(seq![0u8] + mine[k], round, plain.len())[i] as int,
            mine.len() as int,
        )) % 0x1eeed4e13a526bab by {
            field_round::law_blinding_adds_the_pads(mine, round, plain, i);
        }
    }
}

/// A share names its server and its round, and each of its elements is the sum
/// modulo p of the field pads of all secrets. It is refused only where a
/// keystream is used up.
pub proof fn law_session_shares_add_the_pads(
    params: IbltMsgParams,
    round: u32,
    id: ServerId,
    secrets: Map<Seq<u8>, Seq<u8>>,
)
    ensures
        ({
            let r = shared(params, round, id, secrets);
            let mine = values_of(in_order::<PublicKey, Seq<u8>>(secrets));
            let n = params.blank().elements().len();
            let pads = field_round::pads_exist(mine, round, n);
            &&& r is Ok <==> pads
            &&& !pads ==> r == Err::<Shared, Objection>(Objection::Protocol(Refusal::PadExhausted))
            &&& r matches Ok(s) ==> {
                &&& s.server_id == id
                &&& s.round == round
                &&& s.share.len() == n
                &&& forall|i: int|
                    0 <= i < n ==> #[trigger] s.share[i] == sum(
                        |k: int| field_pad(seq![0u8] + mine[k], round, n)[i] as int,
                        mine.len() as int,
                    ) % 0x1eeed4e13a526bab
            }
        }),
{
    let r = shared(params, round, id, secrets);
    if r is Ok {
        let mine = values_of(in_order::<PublicKey, Seq<u8>>(secrets));
        let n = params.blank().elements().len();
        let s = r->Ok_0;
        field_round::lemma_share_canonical(mine, round, n);
        assert forall|i: int| 0 <= i < n implies #[trigger] s.share[i] == sum(
            |k: int| field_pad(seq![0u8] + mine[k], round, n)[i] as int,
            mine.len() as int,
        ) % 0x1eeed4e13a526bab by {
            field_round::law_share_adds_the_pads(mine, round, n, i);
        }
    }
}

// ---------------------------------------------------------------------------
// Combination
// ---------------------------------------------------------------------------

/// No server has two shares.
pub open spec fn one_share_each(ss: Seq<Shared>) -> bool {
    forall|i: int, j: int|
        0 <= i < j < ss.len() ==> (#[trigger] ss[i]).server_id != (#[trigger] ss[j]).server_id
}

/// Every contribution is for the round.
pub open spec fn clients_on_time(cs: Seq<Contributed>, round: u32) -> bool {
    forall|i: int| 0 <= i < cs.len() ==> (#[trigger] cs[i]).round == round
}

/// Every share is for the round.
pub open spec fn servers_on_time(ss: Seq<Shared>, round: u32) -> bool {
    forall|i: int| 0 <= i < ss.len() ==> (#[trigger] ss[i]).round == round
}

/// Every vector has `n` elements.
pub open spec fn rows_of_len(cs: Seq<Contributed>, ss: Seq<Shared>, n: nat) -> bool {
    &&& forall|i: int| 0 <= i < cs.len() ==> (#[trigger] cs[i]).blinded.len() == n
    &&& forall|i: int| 0 <= i < ss.len() ==> (#[trigger] ss[i]).share.len() == n
}

/// Every element of every vector is reduced.
pub open spec fn rows_reduced(cs: Seq<Contributed>, ss: Seq<Shared>) -> bool {
    &&& forall|i: int| 0 <= i < cs.len() ==> words_reduced((#[trigger] cs[i]).blinded)
    &&& forall|i: int| 0 <= i < ss.len() ==> words_reduced((#[trigger] ss[i]).share)
}

proof fn lemma_repeated(ss: Seq<Shared>, i: int)
    requires
        0 <= i <= ss.len(),
        one_share_each(ss.take(i)),
    ensures
        repeated_server(ss, i) is None <==> one_share_each(ss),
        repeated_server(ss, i) matches Some(id) ==> exists|j: int|
            0 <= j < ss.len() && (#[trigger] ss[j]).server_id == id && one_share_each(ss.take(j))
                && server_before(ss, j),
    decreases ss.len() - i,
{
    if i == ss.len() {
        assert(ss.take(i) =~= ss);
    } else if server_before(ss, i) {
        let j = choose|j: int| 0 <= j < i && (#[trigger] ss[j]).server_id == ss[i].server_id;
        assert(!one_share_each(ss)) by {
            assert(ss[j].server_id == ss[i].server_id);
        }
        assert(ss[i].server_id == repeated_server(ss, i)->0);
    } else {
        let more = ss.take(i + 1);
        assert forall|a: int, b: int| 0 <= a < b < more.len() implies (#[trigger] more[a]).server_id
            != (#[trigger] more[b]).server_id by {
            assert(more[a] == ss[a] && more[b] == ss[b]);
            if b < i {
                assert(ss.take(i)[a] == ss[a] && ss.take(i)[b] == ss[b]);
            }
        }
        lemma_repeated(ss, i + 1);
    }
}

proof fn lemma_stray_client(cs: Seq<Contributed>, round: u32, i: int)
    requires
        0 <= i <= cs.len(),
        clients_on_time(cs.take(i), round),
    ensures
        stray_client(cs, round, i) is None <==> clients_on_time(cs, round),
        stray_client(cs, round, i) matches Some(got) ==> exists|j: int|
            0 <= j < cs.len() && (#[trigger] cs[j]).round == got && got != round
                && clients_on_time(cs.take(j), round),
    decreases cs.len() - i,
{
    if i == cs.len() {
        assert(cs.take(i) =~= cs);
    } else if cs[i].round == round {
        let more = cs.take(i + 1);
        assert forall|k: int| 0 <= k < more.len() implies (#[trigger] more[k]).round == round by {
            if k < i {
                assert(cs.take(i)[k] == more[k]);
            }
        }
        lemma_stray_client(cs, round, i + 1);
    } else {
        assert(cs[i].round != round);
    }
}

proof fn lemma_stray_server(ss: Seq<Shared>, round: u32, i: int)
    requires
        0 <= i <= ss.len(),
        servers_on_time(ss.take(i), round),
    ensures
        stray_server(ss, round, i) is None <==> servers_on_time(ss, round),
        stray_server(ss, round, i) matches Some(got) ==> exists|j: int|
            0 <= j < ss.len() && (#[trigger] ss[j]).round == got && got != round
                && servers_on_time(ss.take(j), round),
    decreases ss.len() - i,
{
    if i == ss.len() {
        assert(ss.take(i) =~= ss);
    } else if ss[i].round == round {
        let more = ss.take(i + 1);
        assert forall|k: int| 0 <= k < more.len() implies (#[trigger] more[k]).round == round by {
            if k < i {
                assert(ss.take(i)[k] == more[k]);
            }
        }
        lemma_stray_server(ss, round, i + 1);
    } else {
        assert(ss[i].round != round);
    }
}

proof fn lemma_rows(cs: Seq<Contributed>, ss: Seq<Shared>, n: nat)
    ensures
        field_round::all_of_len(blinded_of(cs), n) && field_round::all_of_len(shares_of(ss), n)
            <==> rows_of_len(cs, ss, n),
        rows_canonical(blinded_of(cs)) && rows_canonical(shares_of(ss)) <==> rows_reduced(cs, ss),
{
    let bs = blinded_of(cs);
    let hs = shares_of(ss);
    if rows_of_len(cs, ss, n) {
        assert forall|i: int| 0 <= i < bs.len() implies (#[trigger] bs[i]).len() == n by {
            assert(bs[i] == cs[i].blinded);
        }
        assert forall|i: int| 0 <= i < hs.len() implies (#[trigger] hs[i]).len() == n by {
            assert(hs[i] == ss[i].share);
        }
    }
    if field_round::all_of_len(bs, n) && field_round::all_of_len(hs, n) {
        assert forall|i: int| 0 <= i < cs.len() implies (#[trigger] cs[i]).blinded.len() == n by {
            assert(bs[i] == cs[i].blinded);
        }
        assert forall|i: int| 0 <= i < ss.len() implies (#[trigger] ss[i]).share.len() == n by {
            assert(hs[i] == ss[i].share);
        }
    }
    assert forall|i: int| 0 <= i < cs.len() implies (words_reduced((#[trigger] cs[i]).blinded)
        <==> crate::crypto::fields::all_canonical(bs[i])) by {
        lemma_reduced_is_canonical(cs[i].blinded);
    }
    assert forall|i: int| 0 <= i < ss.len() implies (words_reduced((#[trigger] ss[i]).share)
        <==> crate::crypto::fields::all_canonical(hs[i])) by {
        lemma_reduced_is_canonical(ss[i].share);
    }
    if rows_reduced(cs, ss) {
        assert forall|i: int| 0 <= i < bs.len() implies crate::crypto::fields::all_canonical(
            #[trigger] bs[i],
        ) by {
            assert(words_reduced(cs[i].blinded));
        }
        assert forall|i: int| 0 <= i < hs.len() implies crate::crypto::fields::all_canonical(
            #[trigger] hs[i],
        ) by {
            assert(words_reduced(ss[i].share));
        }
    }
    if rows_canonical(bs) && rows_canonical(hs) {
        assert forall|i: int| 0 <= i < cs.len() implies words_reduced(
            (#[trigger] cs[i]).blinded,
        ) by {
            assert(crate::crypto::fields::all_canonical(bs[i]));
        }
        assert forall|i: int| 0 <= i < ss.len() implies words_reduced((#[trigger] ss[i]).share) by {
            assert(crate::crypto::fields::all_canonical(hs[i]));
        }
    }
}

/// `words` are the contributions added up minus the shares added up, modulo p.
pub open spec fn taken_off(
    cs: Seq<Contributed>,
    ss: Seq<Shared>,
    n: nat,
    words: Seq<u64>,
) -> bool {
    &&& words.len() == n
    &&& forall|i: int|
        0 <= i < n ==> #[trigger] words[i] == (sum(
            |j: int| cs[j].blinded[i] as int,
            cs.len() as int,
        ) - sum(|j: int| ss[j].share[i] as int, ss.len() as int)) % 0x1eeed4e13a526bab
}

/// When contributions and shares combine, and why they do not otherwise: in this
/// order, the number of shares is not the one expected, a server has two, a
/// contribution or a share is for another round, a vector has the wrong length,
/// or an element is not reduced. What they combine to are the payloads of the
/// contributions minus the shares.
pub proof fn law_session_combines_only_if(
    params: IbltMsgParams,
    round: u32,
    cs: Seq<Contributed>,
    ss: Seq<Shared>,
    expected: usize,
)
    ensures
        ({
            let r = combined(params, round, cs, ss, expected);
            let n = params.blank().elements().len();
            let count = ss.len() == expected;
            let each = one_share_each(ss);
            let clients = clients_on_time(cs, round);
            let servers = servers_on_time(ss, round);
            let lengths = rows_of_len(cs, ss, n);
            let reduced = rows_reduced(cs, ss);
            &&& !count ==> r == Err::<Seq<Seq<u8>>, Objection>(
                Objection::ServerShareCount { expected, got: ss.len() as usize },
            )
            &&& count && !each ==> exists|j: int|
                0 <= j < ss.len() && one_share_each(ss.take(j)) && server_before(ss, j) && r
                    == Err::<Seq<Seq<u8>>, Objection>(
                    Objection::Protocol(
                        Refusal::DuplicatePartial((#[trigger] ss[j]).server_id),
                    ),
                )
            &&& count && each && !clients ==> exists|j: int|
                0 <= j < cs.len() && (#[trigger] cs[j]).round != round && clients_on_time(
                    cs.take(j),
                    round,
                ) && r == Err::<Seq<Seq<u8>>, Objection>(
                    Objection::WrongRound { got: cs[j].round, expected: round },
                )
            &&& count && each && clients && !servers ==> exists|j: int|
                0 <= j < ss.len() && (#[trigger] ss[j]).round != round && servers_on_time(
                    ss.take(j),
                    round,
                ) && r == Err::<Seq<Seq<u8>>, Objection>(
                    Objection::WrongRound { got: ss[j].round, expected: round },
                )
            &&& count && each && clients && servers && !lengths ==> r == Err::<
                Seq<Seq<u8>>,
                Objection,
            >(Objection::Protocol(Refusal::MismatchingVectorLengths))
            &&& count && each && clients && servers && lengths && !reduced ==> r == Err::<
                Seq<Seq<u8>>,
                Objection,
            >(Objection::NonCanonicalFieldElement)
            &&& count && each && clients && servers && lengths && reduced ==> exists|words: Seq<
                u64,
            >| #[trigger]
                taken_off(cs, ss, n, words) && r == match params.payloads(words) {
                    Ok(out) => Ok::<Seq<Seq<u8>>, Objection>(out),
                    Err(e) => Err::<Seq<Seq<u8>>, Objection>(Objection::Encoder(e)),
                }
        }),
{
    let n = params.blank().elements().len();
    assert(ss.take(0) =~= Seq::empty());
    assert(cs.take(0) =~= Seq::empty());
    lemma_repeated(ss, 0);
    lemma_stray_client(cs, round, 0);
    lemma_stray_server(ss, round, 0);
    lemma_rows(cs, ss, n);
    if repeated_server(ss, 0) is Some {
        let id = repeated_server(ss, 0)->0;
        let j = choose|j: int|
            0 <= j < ss.len() && (#[trigger] ss[j]).server_id == id && one_share_each(ss.take(j))
                && server_before(ss, j);
        assert(ss[j].server_id == id);
    }
    if rows_of_len(cs, ss, n) {
        let bs = blinded_of(cs);
        let hs = shares_of(ss);
        let agg = field_round::add_all(vzero(n), bs);
        let words = field_round::sub_all(agg, hs);
        field_round::lemma_add_all_len(vzero(n), bs);
        field_round::lemma_sub_all_len(agg, hs);
        let p: int = 0x1eeed4e13a526bab;
        assert forall|i: int| 0 <= i < n implies #[trigger] words[i] == (sum(
            |j: int| cs[j].blinded[i] as int,
            cs.len() as int,
        ) - sum(|j: int| ss[j].share[i] as int, ss.len() as int)) % p by {
            field_round::lemma_add_all_at(vzero(n), bs, i);
            field_round::law_shares_are_taken_out(agg, hs, i);
            lemma_sum_same(
                |j: int| bs[j][i] as int,
                |j: int| cs[j].blinded[i] as int,
                cs.len() as int,
            );
            lemma_sum_same(
                |j: int| hs[j][i] as int,
                |j: int| ss[j].share[i] as int,
                ss.len() as int,
            );
            let x = sum(|j: int| cs[j].blinded[i] as int, cs.len() as int);
            let y = sum(|j: int| ss[j].share[i] as int, ss.len() as int);
            lemma_sub_mod_noop(x, y, p);
            lemma_sub_mod_noop(x % p, y, p);
            lemma_mod_twice(x, p);
        }
        assert(taken_off(cs, ss, n, words));
    }
}

/// The payloads of a vector are those of the entries of the table that it is, in
/// the order in which they are recovered.
pub proof fn law_payloads_of_a_vector(params: IbltMsgParams, words: Seq<u64>)
    ensures
        ({
            let r = params.payloads(words);
            let t = params.blank().decoded(words);
            let es = t->Ok_0.recovered();
            &&& t is Err ==> r == Err::<Seq<Seq<u8>>, IbltMsgError>(IbltMsgError::Iblt(t->Err_0))
            &&& t is Ok && es is Err ==> r == Err::<Seq<Seq<u8>>, IbltMsgError>(
                IbltMsgError::Iblt(es->Err_0),
            )
            &&& t is Ok && es is Ok ==> r == payloads_of(
                es->Ok_0,
                params.max_payload_bytes as nat,
            )
        }),
{
}

/// What is sent in a session is what is due in an envelope: with the public half
/// of the sender's signing key, and the Ed25519 signature under the secret half of
/// the BLAKE3 digest of its byte form and the public half. Nothing is sent if
/// nothing is due, or if the key is too short.
pub proof fn law_session_messages_are_signed<T: Transcript>(
    r: Result<Signed<T>, OneRoundError>,
    want: Result<T::V, Objection>,
    key: Seq<u8>,
)
    requires
        signed_as::<T>(r, want, key),
    ensures
        r is Ok <==> want is Ok && key.len() >= 64,
        want matches Err(o) ==> r is Err && r->Err_0@ == o,
        want is Ok && key.len() < 64 ==> r is Err && r->Err_0@ == Objection::Protocol(
            Refusal::Key(KeyError::InvalidPrivateKeySize),
        ),
        r matches Ok(s) ==> {
            let public = key.subrange(32, 64);
            &&& want == Ok::<T::V, Objection>(s.object@)
            &&& s.public_key@ == public
            &&& s.signature@ == ed25519_signature(
                key.subrange(0, 32),
                blake3_256(T::transcript(s.object@) + public),
            )
        },
{
    assert(key.len() >= 64 ==> key.subrange(0, 32) == key.take(32));
}

} // verus!
