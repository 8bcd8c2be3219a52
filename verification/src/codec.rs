//! The wire codec: every message travels as a self-delimiting frame, a
//! 4-byte big-endian length prefix followed by exactly that many bytes of a
//! deterministic tagged encoding of the message value. Strings travel as a
//! 4-byte big-endian byte count followed by their UTF-8 bytes; identifiers as
//! 16 raw bytes; sequences as a 4-byte big-endian element count followed by
//! the elements. The codec is stateless and symmetric: decoding an encoded
//! message yields the original value.

use vstd::prelude::*;
use vstd::string::*;
use vstd::utf8::*;

use crate::protocol::{chats_view, roster_view};
use crate::protocol::{ChatMessage, ChatMessageView, ClientMessage, ClientMessageView};
use crate::protocol::{ServerMessage, ServerMessageView};
use crate::uid::Uid;

verus! {

/// The four bytes of `x`, most significant first.
pub open spec fn be32(x: u32) -> Seq<u8> {
    seq![(x >> 24) as u8, (x >> 16) as u8, (x >> 8) as u8, x as u8]
}

/// The value read from four bytes, most significant first.
pub open spec fn be32_val(b: Seq<u8>) -> u32
    recommends
        b.len() == 4,
{
    ((b[0] as u32) << 24) | ((b[1] as u32) << 16) | ((b[2] as u32) << 8) | (b[3] as u32)
}

/// The eight bytes of `x`, most significant first.
pub open spec fn be64(x: u64) -> Seq<u8> {
    seq![
        (x >> 56) as u8,
        (x >> 48) as u8,
        (x >> 40) as u8,
        (x >> 32) as u8,
        (x >> 24) as u8,
        (x >> 16) as u8,
        (x >> 8) as u8,
        x as u8,
    ]
}

/// The value read from eight bytes, most significant first.
pub open spec fn be64_val(b: Seq<u8>) -> u64
    recommends
        b.len() == 8,
{
    ((b[0] as u64) << 56) | ((b[1] as u64) << 48) | ((b[2] as u64) << 40) | ((b[3] as u64) << 32)
        | ((b[4] as u64) << 24) | ((b[5] as u64) << 16) | ((b[6] as u64) << 8) | (b[7] as u64)
}

pub proof fn lemma_be32_round_trip(x: u32)
    ensures
        be32(x).len() == 4,
        be32_val(be32(x)) == x,
{
    let b0 = (x >> 24) as u8;
    let b1 = (x >> 16) as u8;
    let b2 = (x >> 8) as u8;
    let b3 = x as u8;
    assert(((b0 as u32) << 24) | ((b1 as u32) << 16) | ((b2 as u32) << 8) | (b3 as u32) == x)
        by (bit_vector)
        requires
            b0 == (x >> 24) as u8,
            b1 == (x >> 16) as u8,
            b2 == (x >> 8) as u8,
            b3 == x as u8,
    ;
}

pub proof fn lemma_be64_round_trip(x: u64)
    ensures
        be64(x).len() == 8,
        be64_val(be64(x)) == x,
{
    let b0 = (x >> 56) as u8;
    let b1 = (x >> 48) as u8;
    let b2 = (x >> 40) as u8;
    let b3 = (x >> 32) as u8;
    let b4 = (x >> 24) as u8;
    let b5 = (x >> 16) as u8;
    let b6 = (x >> 8) as u8;
    let b7 = x as u8;
    assert(((b0 as u64) << 56) | ((b1 as u64) << 48) | ((b2 as u64) << 40) | ((b3 as u64) << 32)
        | ((b4 as u64) << 24) | ((b5 as u64) << 16) | ((b6 as u64) << 8) | (b7 as u64) == x)
        by (bit_vector)
        requires
            b0 == (x >> 56) as u8,
            b1 == (x >> 48) as u8,
            b2 == (x >> 40) as u8,
            b3 == (x >> 32) as u8,
            b4 == (x >> 24) as u8,
            b5 == (x >> 16) as u8,
            b6 == (x >> 8) as u8,
            b7 == x as u8,
    ;
}

/// The 16 bytes of an identifier: high half first, each half big-endian.
pub open spec fn uid_bytes(u: Uid) -> Seq<u8> {
    be64(u.hi) + be64(u.lo)
}

/// Whether a string's UTF-8 form fits behind a 4-byte length prefix.
pub open spec fn str_fits(s: Seq<char>) -> bool {
    encode_utf8(s).len() <= u32::MAX
}

/// A string's wire form: byte count, then UTF-8 bytes.
pub open spec fn str_block(s: Seq<char>) -> Seq<u8> {
    be32(encode_utf8(s).len() as u32) + encode_utf8(s)
}

/// A chat message's wire form: author, timestamp, text.
pub open spec fn chat_block(m: ChatMessageView) -> Seq<u8> {
    uid_bytes(m.from) + be64(m.timestamp) + str_block(m.text)
}

/// A roster entry's wire form: identifier, then username.
pub open spec fn pair_block(p: (Uid, Seq<char>)) -> Seq<u8> {
    uid_bytes(p.0) + str_block(p.1)
}

/// The concatenated wire forms of a sequence of chat messages.
pub open spec fn chats_bytes(cs: Seq<ChatMessageView>) -> Seq<u8>
    decreases cs.len(),
{
    if cs.len() == 0 {
        Seq::empty()
    } else {
        chat_block(cs[0]) + chats_bytes(cs.drop_first())
    }
}

/// The concatenated wire forms of a roster.
pub open spec fn pairs_bytes(ps: Seq<(Uid, Seq<char>)>) -> Seq<u8>
    decreases ps.len(),
{
    if ps.len() == 0 {
        Seq::empty()
    } else {
        pair_block(ps[0]) + pairs_bytes(ps.drop_first())
    }
}

/// Whether every chat text in the sequence fits its length prefix.
pub open spec fn chats_fit(cs: Seq<ChatMessageView>) -> bool {
    forall|i: int| 0 <= i < cs.len() ==> str_fits(#[trigger] cs[i].text)
}

/// Whether every username in the roster fits its length prefix.
pub open spec fn pairs_fit(ps: Seq<(Uid, Seq<char>)>) -> bool {
    forall|i: int| 0 <= i < ps.len() ==> str_fits(#[trigger] ps[i].1)
}

/// A client message's payload: a tag byte, then the variant's fields.
pub open spec fn client_payload(m: ClientMessageView) -> Seq<u8> {
    match m {
        ClientMessageView::Chat { text } => seq![0u8] + str_block(text),
        ClientMessageView::JoinRequest { username } => seq![1u8] + str_block(username),
    }
}

/// Whether a client message's fields fit their length prefixes.
pub open spec fn client_payload_ok(m: ClientMessageView) -> bool {
    match m {
        ClientMessageView::Chat { text } => str_fits(text),
        ClientMessageView::JoinRequest { username } => str_fits(username),
    }
}

/// Whether a client message can travel as one frame.
pub open spec fn client_encodable(m: ClientMessageView) -> bool {
    client_payload_ok(m) && client_payload(m).len() <= u32::MAX
}

/// A server message's payload: a tag byte, then the variant's fields.
pub open spec fn server_payload(m: ServerMessageView) -> Seq<u8> {
    match m {
        ServerMessageView::Chat(c) => seq![0u8] + chat_block(c),
        ServerMessageView::JoinAccepted { history, participants } => seq![1u8] + be32(
            history.len() as u32,
        ) + chats_bytes(history) + be32(participants.len() as u32) + pairs_bytes(participants),
        ServerMessageView::UserJoined { uuid, username } => seq![2u8] + uid_bytes(uuid) + str_block(
            username,
        ),
        ServerMessageView::UserLeft { uuid } => seq![3u8] + uid_bytes(uuid),
    }
}

/// Whether a server message's fields fit their length prefixes.
pub open spec fn server_payload_ok(m: ServerMessageView) -> bool {
    match m {
        ServerMessageView::Chat(c) => str_fits(c.text),
        ServerMessageView::JoinAccepted { history, participants } => history.len() <= u32::MAX
            && participants.len() <= u32::MAX && chats_fit(history) && pairs_fit(participants),
        ServerMessageView::UserJoined { uuid, username } => str_fits(username),
        ServerMessageView::UserLeft { uuid } => true,
    }
}

/// Whether a server message can travel as one frame.
pub open spec fn server_encodable(m: ServerMessageView) -> bool {
    server_payload_ok(m) && server_payload(m).len() <= u32::MAX
}

/// A complete frame around a payload.
pub open spec fn frame(payload: Seq<u8>) -> Seq<u8> {
    be32(payload.len() as u32) + payload
}

/// A client message's complete frame.
pub open spec fn client_frame(m: ClientMessageView) -> Seq<u8> {
    frame(client_payload(m))
}

/// A server message's complete frame.
pub open spec fn server_frame(m: ServerMessageView) -> Seq<u8> {
    frame(server_payload(m))
}

fn push_u32_be(out: &mut Vec<u8>, x: u32)
    ensures
        final(out)@ == old(out)@ + be32(x),
{
    out.push(#[verifier::truncate] ((x >> 24) as u8));
    out.push(#[verifier::truncate] ((x >> 16) as u8));
    out.push(#[verifier::truncate] ((x >> 8) as u8));
    out.push(#[verifier::truncate] (x as u8));
    proof {
        assert(out@ =~= old(out)@ + be32(x));
    }
}

fn push_u64_be(out: &mut Vec<u8>, x: u64)
    ensures
        final(out)@ == old(out)@ + be64(x),
{
    out.push(#[verifier::truncate] ((x >> 56) as u8));
    out.push(#[verifier::truncate] ((x >> 48) as u8));
    out.push(#[verifier::truncate] ((x >> 40) as u8));
    out.push(#[verifier::truncate] ((x >> 32) as u8));
    out.push(#[verifier::truncate] ((x >> 24) as u8));
    out.push(#[verifier::truncate] ((x >> 16) as u8));
    out.push(#[verifier::truncate] ((x >> 8) as u8));
    out.push(#[verifier::truncate] (x as u8));
    proof {
        assert(out@ =~= old(out)@ + be64(x));
    }
}

fn push_bytes(out: &mut Vec<u8>, b: &[u8])
    ensures
        final(out)@ == old(out)@ + b@,
{
    proof {
        assert(out@ =~= old(out)@ + b@.subrange(0, 0));
    }
    let mut i: usize = 0;
    while i < b.len()
        invariant
            i <= b@.len(),
            out@ == old(out)@ + b@.subrange(0, i as int),
        decreases b@.len() - i,
    {
        out.push(b[i]);
        proof {
            assert(out@ =~= old(out)@ + b@.subrange(0, i + 1));
        }
        i = i + 1;
    }
    proof {
        assert(b@.subrange(0, b@.len() as int) =~= b@);
    }
}

fn push_uid(out: &mut Vec<u8>, u: &Uid)
    ensures
        final(out)@ == old(out)@ + uid_bytes(*u),
{
    push_u64_be(out, u.hi);
    push_u64_be(out, u.lo);
    proof {
        assert(out@ =~= old(out)@ + uid_bytes(*u));
    }
}

fn push_str_block(out: &mut Vec<u8>, s: &str) -> (ok: bool)
    ensures
        ok == str_fits(s@),
        ok ==> final(out)@ == old(out)@ + str_block(s@),
        !ok ==> final(out)@ == old(out)@,
{
    let bytes: &[u8] = s.as_bytes();
    if bytes.len() > u32::MAX as usize {
        return false;
    }
    push_u32_be(out, bytes.len() as u32);
    push_bytes(out, bytes);
    proof {
        assert(out@ =~= old(out)@ + str_block(s@));
    }
    true
}

fn push_chat_block(out: &mut Vec<u8>, m: &ChatMessage) -> (ok: bool)
    ensures
        ok == str_fits(m@.text),
        ok ==> final(out)@ == old(out)@ + chat_block(m@),
        !ok ==> final(out)@ == old(out)@,
{
    if m.text.as_str().as_bytes().len() > u32::MAX as usize {
        return false;
    }
    push_uid(out, &m.from);
    push_u64_be(out, m.timestamp);
    let ok = push_str_block(out, m.text.as_str());
    proof {
        assert(out@ =~= old(out)@ + chat_block(m@));
    }
    ok
}

fn push_pair_block(out: &mut Vec<u8>, uuid: &Uid, username: &str) -> (ok: bool)
    ensures
        ok == str_fits(username@),
        ok ==> final(out)@ == old(out)@ + pair_block((*uuid, username@)),
        !ok ==> final(out)@ == old(out)@,
{
    if username.as_bytes().len() > u32::MAX as usize {
        return false;
    }
    push_uid(out, uuid);
    let ok = push_str_block(out, username);
    proof {
        assert(out@ =~= old(out)@ + pair_block((*uuid, username@)));
    }
    ok
}

proof fn lemma_chats_bytes_push(cs: Seq<ChatMessageView>, c: ChatMessageView)
    ensures
        chats_bytes(cs.push(c)) == chats_bytes(cs) + chat_block(c),
    decreases cs.len(),
{
    if cs.len() == 0 {
        assert(cs.push(c).drop_first() =~= Seq::<ChatMessageView>::empty());
        assert(chats_bytes(cs.push(c).drop_first()) == Seq::<u8>::empty());
        assert(cs.push(c)[0] == c);
        assert(chats_bytes(cs.push(c)) =~= chats_bytes(cs) + chat_block(c));
    } else {
        lemma_chats_bytes_push(cs.drop_first(), c);
        assert(cs.push(c).drop_first() =~= cs.drop_first().push(c));
        assert(cs.push(c)[0] == cs[0]);
        assert(chats_bytes(cs.push(c)) == chat_block(cs[0]) + chats_bytes(cs.drop_first().push(c)));
        assert(chats_bytes(cs) == chat_block(cs[0]) + chats_bytes(cs.drop_first()));
        vstd::seq_lib::lemma_concat_associative(
            chat_block(cs[0]),
            chats_bytes(cs.drop_first()),
            chat_block(c),
        );
        assert(chats_bytes(cs.push(c)) == chats_bytes(cs) + chat_block(c));
    }
}

proof fn lemma_pairs_bytes_push(ps: Seq<(Uid, Seq<char>)>, p: (Uid, Seq<char>))
    ensures
        pairs_bytes(ps.push(p)) == pairs_bytes(ps) + pair_block(p),
    decreases ps.len(),
{
    if ps.len() == 0 {
        assert(ps.push(p).drop_first() =~= Seq::<(Uid, Seq<char>)>::empty());
        assert(pairs_bytes(ps.push(p).drop_first()) == Seq::<u8>::empty());
        assert(ps.push(p)[0] == p);
        assert(pairs_bytes(ps.push(p)) =~= pairs_bytes(ps) + pair_block(p));
    } else {
        lemma_pairs_bytes_push(ps.drop_first(), p);
        assert(ps.push(p).drop_first() =~= ps.drop_first().push(p));
        assert(ps.push(p)[0] == ps[0]);
        assert(pairs_bytes(ps.push(p)) == pair_block(ps[0]) + pairs_bytes(ps.drop_first().push(p)));
        assert(pairs_bytes(ps) == pair_block(ps[0]) + pairs_bytes(ps.drop_first()));
        vstd::seq_lib::lemma_concat_associative(
            pair_block(ps[0]),
            pairs_bytes(ps.drop_first()),
            pair_block(p),
        );
        assert(pairs_bytes(ps.push(p)) == pairs_bytes(ps) + pair_block(p));
    }
}

fn client_payload_bytes(m: &ClientMessage) -> (r: Option<Vec<u8>>)
    ensures
        r is Some <==> client_payload_ok(m@),
        r is Some ==> r.unwrap()@ == client_payload(m@),
{
    let mut out: Vec<u8> = Vec::new();
    match m {
        ClientMessage::Chat { text } => {
            out.push(0u8);
            if !push_str_block(&mut out, text.as_str()) {
                return None;
            }
            proof {
                assert(out@ =~= client_payload(m@));
            }
        },
        ClientMessage::JoinRequest { username } => {
            out.push(1u8);
            if !push_str_block(&mut out, username.as_str()) {
                return None;
            }
            proof {
                assert(out@ =~= client_payload(m@));
            }
        },
    }
    Some(out)
}

fn server_payload_bytes(m: &ServerMessage) -> (r: Option<Vec<u8>>)
    ensures
        r is Some <==> server_payload_ok(m@),
        r is Some ==> r.unwrap()@ == server_payload(m@),
{
    let mut out: Vec<u8> = Vec::new();
    match m {
        ServerMessage::Chat(c) => {
            out.push(0u8);
            if !push_chat_block(&mut out, c) {
                return None;
            }
            proof {
                assert(out@ =~= server_payload(m@));
            }
        },
        ServerMessage::JoinAccepted { history, participants } => {
            proof {
                assert(m@ == ServerMessageView::JoinAccepted {
                    history: chats_view(history@),
                    participants: roster_view(participants@),
                });
            }
            out.push(1u8);
            if history.len() > u32::MAX as usize {
                return None;
            }
            if participants.len() > u32::MAX as usize {
                return None;
            }
            push_u32_be(&mut out, history.len() as u32);
            let ghost base = out@;
            let mut i: usize = 0;
            proof {
                assert(chats_bytes(chats_view(history@).subrange(0, 0))
                    =~= Seq::<u8>::empty());
                assert(out@ =~= base + chats_bytes(
                    chats_view(history@).subrange(0, 0),
                ));
            }
            while i < history.len()
                invariant
                    m@ == (ServerMessageView::JoinAccepted {
                        history: chats_view(history@),
                        participants: roster_view(participants@),
                    }),
                    i <= history@.len(),
                    out@ == base + chats_bytes(
                        chats_view(history@).subrange(0, i as int),
                    ),
                    forall|k: int|
                        0 <= k < i ==> str_fits(
                            #[trigger] chats_view(history@)[k].text,
                        ),
                decreases history@.len() - i,
            {
                if !push_chat_block(&mut out, &history[i]) {
                    proof {
                        assert(chats_view(history@)[i as int].text == history@[i as int]@.text);
                        assert(!chats_fit(chats_view(history@)));
                    }
                    return None;
                }
                proof {
                    let cv = chats_view(history@);
                    assert(cv.subrange(0, i + 1) =~= cv.subrange(0, i as int).push(cv[i as int]));
                    lemma_chats_bytes_push(cv.subrange(0, i as int), cv[i as int]);
                }
                i = i + 1;
            }
            proof {
                let cv = chats_view(history@);
                assert(cv.subrange(0, cv.len() as int) =~= cv);
            }
            if participants.len() > u32::MAX as usize {
                return None;
            }
            push_u32_be(&mut out, participants.len() as u32);
            let ghost base2 = out@;
            let mut j: usize = 0;
            proof {
                assert(pairs_bytes(roster_view(participants@).subrange(0, 0))
                    =~= Seq::<u8>::empty());
                assert(out@ =~= base2 + pairs_bytes(
                    roster_view(participants@).subrange(0, 0),
                ));
            }
            while j < participants.len()
                invariant
                    m@ == (ServerMessageView::JoinAccepted {
                        history: chats_view(history@),
                        participants: roster_view(participants@),
                    }),
                    j <= participants@.len(),
                    out@ == base2 + pairs_bytes(
                        roster_view(participants@).subrange(0, j as int),
                    ),
                    forall|k: int|
                        0 <= k < j ==> str_fits(
                            #[trigger] roster_view(participants@)[k].1,
                        ),
                decreases participants@.len() - j,
            {
                if !push_pair_block(&mut out, &participants[j].0, participants[j].1.as_str()) {
                    proof {
                        assert(roster_view(participants@)[j as int].1
                            == participants@[j as int].1@);
                        assert(!pairs_fit(roster_view(participants@)));
                    }
                    return None;
                }
                proof {
                    let pv = roster_view(participants@);
                    assert(pv.subrange(0, j + 1) =~= pv.subrange(0, j as int).push(pv[j as int]));
                    lemma_pairs_bytes_push(pv.subrange(0, j as int), pv[j as int]);
                }
                j = j + 1;
            }
            proof {
                let pv = roster_view(participants@);
                assert(pv.subrange(0, pv.len() as int) =~= pv);
                assert(out@ =~= server_payload(m@));
            }
        },
        ServerMessage::UserJoined { uuid, username } => {
            out.push(2u8);
            push_uid(&mut out, uuid);
            if !push_str_block(&mut out, username.as_str()) {
                return None;
            }
            proof {
                assert(out@ =~= server_payload(m@));
            }
        },
        ServerMessage::UserLeft { uuid } => {
            out.push(3u8);
            push_uid(&mut out, uuid);
            proof {
                assert(out@ =~= server_payload(m@));
            }
        },
    }
    Some(out)
}

/// Builds a client message's complete frame: length prefix, then payload.
/// Fails exactly when the message is too large for the framing.
pub fn encode_client_message(m: &ClientMessage) -> (r: Option<Vec<u8>>)
    ensures
        r is Some <==> client_encodable(m@),
        r is Some ==> r.unwrap()@ == client_frame(m@),
{
    let payload = match client_payload_bytes(m) {
        Some(p) => p,
        None => {
            return None;
        },
    };
    if payload.len() > u32::MAX as usize {
        return None;
    }
    let mut out: Vec<u8> = Vec::new();
    push_u32_be(&mut out, payload.len() as u32);
    push_bytes(&mut out, payload.as_slice());
    proof {
        assert(out@ =~= client_frame(m@));
    }
    Some(out)
}

/// Builds a server message's complete frame: length prefix, then payload.
/// Fails exactly when the message is too large for the framing.
pub fn encode_message(m: &ServerMessage) -> (r: Option<Vec<u8>>)
    ensures
        r is Some <==> server_encodable(m@),
        r is Some ==> r.unwrap()@ == server_frame(m@),
{
    let payload = match server_payload_bytes(m) {
        Some(p) => p,
        None => {
            return None;
        },
    };
    if payload.len() > u32::MAX as usize {
        return None;
    }
    let mut out: Vec<u8> = Vec::new();
    push_u32_be(&mut out, payload.len() as u32);
    push_bytes(&mut out, payload.as_slice());
    proof {
        assert(out@ =~= server_frame(m@));
    }
    Some(out)
}


/// Reads a 4-byte big-endian value at `i`.
pub open spec fn dec_u32(b: Seq<u8>, i: int) -> Option<(u32, int)> {
    if 0 <= i && i + 4 <= b.len() {
        Some((be32_val(b.subrange(i, i + 4)), i + 4))
    } else {
        None
    }
}

/// Reads an 8-byte big-endian value at `i`.
pub open spec fn dec_u64(b: Seq<u8>, i: int) -> Option<(u64, int)> {
    if 0 <= i && i + 8 <= b.len() {
        Some((be64_val(b.subrange(i, i + 8)), i + 8))
    } else {
        None
    }
}

/// Reads a 16-byte identifier at `i`.
pub open spec fn dec_uid(b: Seq<u8>, i: int) -> Option<(Uid, int)> {
    if 0 <= i && i + 16 <= b.len() {
        Some(
            (
                Uid {
                    hi: be64_val(b.subrange(i, i + 8)),
                    lo: be64_val(b.subrange(i + 8, i + 16)),
                },
                i + 16,
            ),
        )
    } else {
        None
    }
}

/// Reads a length-prefixed UTF-8 string at `i`.
pub open spec fn dec_str(b: Seq<u8>, i: int) -> Option<(Seq<char>, int)> {
    match dec_u32(b, i) {
        Option::None => None,
        Option::Some((n, j)) => {
            if j + n <= b.len() && valid_utf8(b.subrange(j, j + n)) {
                Some((decode_utf8(b.subrange(j, j + n)), j + n))
            } else {
                None
            }
        },
    }
}

/// Reads one chat message block at `i`: author, timestamp, text.
pub open spec fn dec_chat(b: Seq<u8>, i: int) -> Option<(ChatMessageView, int)> {
    match dec_uid(b, i) {
        Option::None => None,
        Option::Some((from, j)) => match dec_u64(b, j) {
            Option::None => None,
            Option::Some((ts, k)) => match dec_str(b, k) {
                Option::None => None,
                Option::Some((text, e)) => Some(
                    (ChatMessageView { from, text, timestamp: ts }, e),
                ),
            },
        },
    }
}

/// Reads one roster entry at `i`: identifier, then username.
pub open spec fn dec_pair(b: Seq<u8>, i: int) -> Option<((Uid, Seq<char>), int)> {
    match dec_uid(b, i) {
        Option::None => None,
        Option::Some((uuid, j)) => match dec_str(b, j) {
            Option::None => None,
            Option::Some((name, e)) => Some(((uuid, name), e)),
        },
    }
}

/// Reads `count` chat message blocks in order, starting at `i`.
pub open spec fn dec_chats(b: Seq<u8>, i: int, count: int) -> Option<(Seq<ChatMessageView>, int)>
    decreases count,
{
    if count <= 0 {
        Some((Seq::empty(), i))
    } else {
        match dec_chat(b, i) {
            Option::None => None,
            Option::Some((c, j)) => match dec_chats(b, j, count - 1) {
                Option::None => None,
                Option::Some((rest, e)) => Some((seq![c] + rest, e)),
            },
        }
    }
}

/// Reads `count` roster entries in order, starting at `i`.
pub open spec fn dec_pairs(b: Seq<u8>, i: int, count: int) -> Option<
    (Seq<(Uid, Seq<char>)>, int),
>
    decreases count,
{
    if count <= 0 {
        Some((Seq::empty(), i))
    } else {
        match dec_pair(b, i) {
            Option::None => None,
            Option::Some((p, j)) => match dec_pairs(b, j, count - 1) {
                Option::None => None,
                Option::Some((rest, e)) => Some((seq![p] + rest, e)),
            },
        }
    }
}

/// The client message a payload spells, if it spells one: a known tag, a
/// well-formed body, and nothing left over.
pub open spec fn client_payload_dec(b: Seq<u8>) -> Option<ClientMessageView> {
    if b.len() < 1 {
        None
    } else if b[0] == 0u8 {
        match dec_str(b, 1) {
            Option::None => None,
            Option::Some((text, e)) => if e == b.len() {
                Some(ClientMessageView::Chat { text })
            } else {
                None
            },
        }
    } else if b[0] == 1u8 {
        match dec_str(b, 1) {
            Option::None => None,
            Option::Some((username, e)) => if e == b.len() {
                Some(ClientMessageView::JoinRequest { username })
            } else {
                None
            },
        }
    } else {
        None
    }
}

/// The server message a payload spells, if it spells one: a known tag, a
/// well-formed body, and nothing left over.
pub open spec fn server_payload_dec(b: Seq<u8>) -> Option<ServerMessageView> {
    if b.len() < 1 {
        None
    } else if b[0] == 0u8 {
        match dec_chat(b, 1) {
            Option::None => None,
            Option::Some((c, e)) => if e == b.len() {
                Some(ServerMessageView::Chat(c))
            } else {
                None
            },
        }
    } else if b[0] == 1u8 {
        match dec_u32(b, 1) {
            Option::None => None,
            Option::Some((n1, i1)) => match dec_chats(b, i1, n1 as int) {
                Option::None => None,
                Option::Some((history, i2)) => match dec_u32(b, i2) {
                    Option::None => None,
                    Option::Some((n2, i3)) => match dec_pairs(b, i3, n2 as int) {
                        Option::None => None,
                        Option::Some((participants, e)) => if e == b.len() {
                            Some(ServerMessageView::JoinAccepted { history, participants })
                        } else {
                            None
                        },
                    },
                },
            },
        }
    } else if b[0] == 2u8 {
        match dec_uid(b, 1) {
            Option::None => None,
            Option::Some((uuid, j)) => match dec_str(b, j) {
                Option::None => None,
                Option::Some((username, e)) => if e == b.len() {
                    Some(ServerMessageView::UserJoined { uuid, username })
                } else {
                    None
                },
            },
        }
    } else if b[0] == 3u8 {
        match dec_uid(b, 1) {
            Option::None => None,
            Option::Some((uuid, e)) => if e == b.len() {
                Some(ServerMessageView::UserLeft { uuid })
            } else {
                None
            },
        }
    } else {
        None
    }
}

/// One frame's payload, if the buffer holds a complete frame: four length
/// bytes, then exactly that many payload bytes.
pub open spec fn frame_payload(b: Seq<u8>) -> Option<Seq<u8>> {
    if b.len() < 4 {
        None
    } else {
        let n = be32_val(b.subrange(0, 4)) as int;
        if b.len() < 4 + n {
            None
        } else {
            Some(b.subrange(4, 4 + n))
        }
    }
}

/// Why a buffer does not yet yield a message: the frame is not complete, or
/// its payload does not spell a valid message.
#[derive(Debug, Clone, Copy, PartialEq, Eq, Structural)]
pub enum FrameError {
    MalformedFrame,
    Incomplete,
}

/// Relies on `core::str::from_utf8`: it succeeds exactly on valid UTF-8, and
/// returns the string those bytes spell.
#[verifier::external_body]
fn bytes_to_string(v: &[u8]) -> (r: Option<String>)
    ensures
        r is Some <==> valid_utf8(v@),
        r is Some ==> encode_utf8(r.unwrap()@) == v@,
{
    match core::str::from_utf8(v) {
        Ok(s) => Some(s.to_owned()),
        Err(_) => None,
    }
}

fn read_u32(b: &[u8], i: usize) -> (r: Option<(u32, usize)>)
    ensures
        match r {
            Some((x, j)) => dec_u32(b@, i as int) == Some((x, j as int)) && j <= b@.len(),
            None => dec_u32(b@, i as int) is None,
        },
{
    if b.len() < 4 || i > b.len() - 4 {
        return None;
    }
    let x = ((b[i] as u32) << 24) | ((b[i + 1] as u32) << 16) | ((b[i + 2] as u32) << 8) | (b[i
        + 3] as u32);
    proof {
        assert(b@.subrange(i as int, i as int + 4) =~= seq![
            b@[i as int],
            b@[i as int + 1],
            b@[i as int + 2],
            b@[i as int + 3],
        ]);
    }
    Some((x, i + 4))
}

fn read_u64(b: &[u8], i: usize) -> (r: Option<(u64, usize)>)
    ensures
        match r {
            Some((x, j)) => dec_u64(b@, i as int) == Some((x, j as int)) && j <= b@.len(),
            None => dec_u64(b@, i as int) is None,
        },
{
    if b.len() < 8 || i > b.len() - 8 {
        return None;
    }
    let x = ((b[i] as u64) << 56) | ((b[i + 1] as u64) << 48) | ((b[i + 2] as u64) << 40) | ((b[i
        + 3] as u64) << 32) | ((b[i + 4] as u64) << 24) | ((b[i + 5] as u64) << 16) | ((b[i
        + 6] as u64) << 8) | (b[i + 7] as u64);
    proof {
        assert(b@.subrange(i as int, i as int + 8) =~= seq![
            b@[i as int],
            b@[i as int + 1],
            b@[i as int + 2],
            b@[i as int + 3],
            b@[i as int + 4],
            b@[i as int + 5],
            b@[i as int + 6],
            b@[i as int + 7],
        ]);
    }
    Some((x, i + 8))
}

fn read_uid(b: &[u8], i: usize) -> (r: Option<(Uid, usize)>)
    ensures
        match r {
            Some((u, j)) => dec_uid(b@, i as int) == Some((u, j as int)) && j <= b@.len(),
            None => dec_uid(b@, i as int) is None,
        },
{
    let (hi, j) = match read_u64(b, i) {
        Some(p) => p,
        None => {
            return None;
        },
    };
    let (lo, k) = match read_u64(b, j) {
        Some(p) => p,
        None => {
            return None;
        },
    };
    Some((Uid { hi, lo }, k))
}

fn read_str(b: &[u8], i: usize) -> (r: Option<(String, usize)>)
    ensures
        match r {
            Some((s, j)) => dec_str(b@, i as int) == Some((s@, j as int)) && j <= b@.len(),
            None => dec_str(b@, i as int) is None,
        },
{
    let (n, j) = match read_u32(b, i) {
        Some(p) => p,
        None => {
            return None;
        },
    };
    let n_us = n as usize;
    if n_us > b.len() - j {
        return None;
    }
    let bytes = vstd::slice::slice_subrange(b, j, j + n_us);
    match bytes_to_string(bytes) {
        Some(s) => {
            proof {
                encode_utf8_decode_utf8(s@);
            }
            Some((s, j + n_us))
        },
        None => None,
    }
}

fn read_chat(b: &[u8], i: usize) -> (r: Option<(ChatMessage, usize)>)
    ensures
        match r {
            Some((c, j)) => dec_chat(b@, i as int) == Some((c@, j as int)) && j <= b@.len(),
            None => dec_chat(b@, i as int) is None,
        },
{
    let (from, j) = match read_uid(b, i) {
        Some(p) => p,
        None => {
            return None;
        },
    };
    let (timestamp, k) = match read_u64(b, j) {
        Some(p) => p,
        None => {
            return None;
        },
    };
    let (text, e) = match read_str(b, k) {
        Some(p) => p,
        None => {
            return None;
        },
    };
    Some((ChatMessage { from, text, timestamp }, e))
}

fn read_pair(b: &[u8], i: usize) -> (r: Option<((Uid, String), usize)>)
    ensures
        match r {
            Some((p, j)) => dec_pair(b@, i as int) == Some(((p.0, p.1@), j as int)) && j
                <= b@.len(),
            None => dec_pair(b@, i as int) is None,
        },
{
    let (uuid, j) = match read_uid(b, i) {
        Some(p) => p,
        None => {
            return None;
        },
    };
    let (name, e) = match read_str(b, j) {
        Some(p) => p,
        None => {
            return None;
        },
    };
    Some(((uuid, name), e))
}

fn read_chats(b: &[u8], i: usize, count: u32) -> (r: Option<(Vec<ChatMessage>, usize)>)
    requires
        i <= b@.len(),
    ensures
        match r {
            Some((v, j)) => dec_chats(b@, i as int, count as int) == Some(
                (chats_view(v@), j as int),
            ) && j <= b@.len(),
            None => dec_chats(b@, i as int, count as int) is None,
        },
{
    let mut out: Vec<ChatMessage> = Vec::new();
    let mut pos: usize = i;
    let mut k: u32 = 0;
    proof {
        assert(chats_view(out@) =~= Seq::<ChatMessageView>::empty());
    }
    while k < count
        invariant
            k <= count,
            pos <= b@.len(),
            out@.len() == k as int,
            dec_chats(b@, i as int, count as int) == (match dec_chats(
                b@,
                pos as int,
                count as int - k as int,
            ) {
                Option::Some((rest, e)) => Some((chats_view(out@) + rest, e)),
                Option::None => None::<(Seq<ChatMessageView>, int)>,
            }),
        decreases count as int - k as int,
    {
        let ghost before = out@;
        let (c, np) = match read_chat(b, pos) {
            Some(p) => p,
            None => {
                return None;
            },
        };
        out.push(c);
        proof {
            let rem = count as int - k as int;
            let inner = dec_chats(b@, np as int, rem - 1);
            assert(dec_chats(b@, pos as int, rem) == (match inner {
                Option::Some((rest, e)) => Some((seq![c@] + rest, e)),
                Option::None => None::<(Seq<ChatMessageView>, int)>,
            }));
            if inner is Some {
                let rest = inner.unwrap().0;
                assert(chats_view(out@) =~= chats_view(before).push(c@));
                assert(chats_view(before).push(c@) =~= chats_view(before) + seq![c@]);
                vstd::seq_lib::lemma_concat_associative(chats_view(before), seq![c@], rest);
            }
        }
        pos = np;
        k = k + 1;
    }
    proof {
        assert(dec_chats(b@, pos as int, 0) == Some((Seq::<ChatMessageView>::empty(), pos as int)));
        assert(chats_view(out@) + Seq::<ChatMessageView>::empty() =~= chats_view(out@));
    }
    Some((out, pos))
}

fn read_pairs(b: &[u8], i: usize, count: u32) -> (r: Option<(Vec<(Uid, String)>, usize)>)
    requires
        i <= b@.len(),
    ensures
        match r {
            Some((v, j)) => dec_pairs(b@, i as int, count as int) == Some(
                (roster_view(v@), j as int),
            ) && j <= b@.len(),
            None => dec_pairs(b@, i as int, count as int) is None,
        },
{
    let mut out: Vec<(Uid, String)> = Vec::new();
    let mut pos: usize = i;
    let mut k: u32 = 0;
    proof {
        assert(roster_view(out@) =~= Seq::<(Uid, Seq<char>)>::empty());
    }
    while k < count
        invariant
            k <= count,
            pos <= b@.len(),
            out@.len() == k as int,
            dec_pairs(b@, i as int, count as int) == (match dec_pairs(
                b@,
                pos as int,
                count as int - k as int,
            ) {
                Option::Some((rest, e)) => Some((roster_view(out@) + rest, e)),
                Option::None => None::<(Seq<(Uid, Seq<char>)>, int)>,
            }),
        decreases count as int - k as int,
    {
        let ghost before = out@;
        let (p, np) = match read_pair(b, pos) {
            Some(q) => q,
            None => {
                return None;
            },
        };
        let ghost pv = (p.0, p.1@);
        out.push(p);
        proof {
            let rem = count as int - k as int;
            let inner = dec_pairs(b@, np as int, rem - 1);
            assert(dec_pairs(b@, pos as int, rem) == (match inner {
                Option::Some((rest, e)) => Some((seq![pv] + rest, e)),
                Option::None => None::<(Seq<(Uid, Seq<char>)>, int)>,
            }));
            if inner is Some {
                let rest = inner.unwrap().0;
                assert(roster_view(out@) =~= roster_view(before).push(pv));
                assert(roster_view(before).push(pv) =~= roster_view(before) + seq![pv]);
                vstd::seq_lib::lemma_concat_associative(roster_view(before), seq![pv], rest);
            }
        }
        pos = np;
        k = k + 1;
    }
    proof {
        assert(dec_pairs(b@, pos as int, 0) == Some(
            (Seq::<(Uid, Seq<char>)>::empty(), pos as int),
        ));
        assert(roster_view(out@) + Seq::<(Uid, Seq<char>)>::empty() =~= roster_view(out@));
    }
    Some((out, pos))
}

/// Decodes a client message from one frame's payload. Fails exactly when the
/// payload does not spell a valid client message.
pub fn decode_client_payload(b: &[u8]) -> (r: Option<ClientMessage>)
    ensures
        match r {
            Some(m) => client_payload_dec(b@) == Some(m@),
            None => client_payload_dec(b@) is None,
        },
{
    if b.len() < 1 {
        return None;
    }
    let tag = b[0];
    if tag == 0u8 {
        let (text, e) = match read_str(b, 1) {
            Some(p) => p,
            None => {
                return None;
            },
        };
        if e != b.len() {
            return None;
        }
        Some(ClientMessage::Chat { text })
    } else if tag == 1u8 {
        let (username, e) = match read_str(b, 1) {
            Some(p) => p,
            None => {
                return None;
            },
        };
        if e != b.len() {
            return None;
        }
        Some(ClientMessage::JoinRequest { username })
    } else {
        None
    }
}

/// Decodes a server message from one frame's payload. Fails exactly when the
/// payload does not spell a valid server message.
pub fn decode_server_payload(b: &[u8]) -> (r: Option<ServerMessage>)
    ensures
        match r {
            Some(m) => server_payload_dec(b@) == Some(m@),
            None => server_payload_dec(b@) is None,
        },
{
    if b.len() < 1 {
        return None;
    }
    let tag = b[0];
    if tag == 0u8 {
        let (c, e) = match read_chat(b, 1) {
            Some(p) => p,
            None => {
                return None;
            },
        };
        if e != b.len() {
            return None;
        }
        Some(ServerMessage::Chat(c))
    } else if tag == 1u8 {
        let (n1, i1) = match read_u32(b, 1) {
            Some(p) => p,
            None => {
                return None;
            },
        };
        let (history, i2) = match read_chats(b, i1, n1) {
            Some(p) => p,
            None => {
                return None;
            },
        };
        let (n2, i3) = match read_u32(b, i2) {
            Some(p) => p,
            None => {
                return None;
            },
        };
        let (participants, e) = match read_pairs(b, i3, n2) {
            Some(p) => p,
            None => {
                return None;
            },
        };
        if e != b.len() {
            return None;
        }
        Some(ServerMessage::JoinAccepted { history, participants })
    } else if tag == 2u8 {
        let (uuid, j) = match read_uid(b, 1) {
            Some(p) => p,
            None => {
                return None;
            },
        };
        let (username, e) = match read_str(b, j) {
            Some(p) => p,
            None => {
                return None;
            },
        };
        if e != b.len() {
            return None;
        }
        Some(ServerMessage::UserJoined { uuid, username })
    } else if tag == 3u8 {
        let (uuid, e) = match read_uid(b, 1) {
            Some(p) => p,
            None => {
                return None;
            },
        };
        if e != b.len() {
            return None;
        }
        Some(ServerMessage::UserLeft { uuid })
    } else {
        None
    }
}

/// The payload length a 4-byte frame prefix declares.
pub fn payload_length(prefix: &[u8]) -> (r: Option<u32>)
    ensures
        prefix@.len() >= 4 ==> r == Some(be32_val(prefix@.subrange(0, 4))),
        prefix@.len() < 4 ==> r is None,
{
    match read_u32(prefix, 0) {
        Some((n, _)) => Some(n),
        None => None,
    }
}

/// Decodes one client frame from the front of a buffer. On success the
/// number of bytes consumed is exactly the declared payload length plus the
/// 4-byte prefix, never more and never fewer.
pub fn decode_client_frame(b: &[u8]) -> (r: Result<(ClientMessage, usize), FrameError>)
    ensures
        match r {
            Ok((m, consumed)) => {
                &&& frame_payload(b@) matches Some(p) && client_payload_dec(p) == Some(m@)
                &&& consumed as int == 4 + be32_val(b@.subrange(0, 4))
                &&& consumed <= b@.len()
            },
            Err(FrameError::Incomplete) => frame_payload(b@) is None,
            Err(FrameError::MalformedFrame) => frame_payload(b@) matches Some(p)
                && client_payload_dec(p) is None,
        },
{
    let (n, _) = match read_u32(b, 0) {
        Some(p) => p,
        None => {
            return Err(FrameError::Incomplete);
        },
    };
    let n_us = n as usize;
    if b.len() - 4 < n_us {
        return Err(FrameError::Incomplete);
    }
    let payload = vstd::slice::slice_subrange(b, 4, 4 + n_us);
    match decode_client_payload(payload) {
        Some(m) => Ok((m, 4 + n_us)),
        None => Err(FrameError::MalformedFrame),
    }
}

/// Decodes one server frame from the front of a buffer. On success the
/// number of bytes consumed is exactly the declared payload length plus the
/// 4-byte prefix, never more and never fewer.
pub fn decode_server_frame(b: &[u8]) -> (r: Result<(ServerMessage, usize), FrameError>)
    ensures
        match r {
            Ok((m, consumed)) => {
                &&& frame_payload(b@) matches Some(p) && server_payload_dec(p) == Some(m@)
                &&& consumed as int == 4 + be32_val(b@.subrange(0, 4))
                &&& consumed <= b@.len()
            },
            Err(FrameError::Incomplete) => frame_payload(b@) is None,
            Err(FrameError::MalformedFrame) => frame_payload(b@) matches Some(p)
                && server_payload_dec(p) is None,
        },
{
    let (n, _) = match read_u32(b, 0) {
        Some(p) => p,
        None => {
            return Err(FrameError::Incomplete);
        },
    };
    let n_us = n as usize;
    if b.len() - 4 < n_us {
        return Err(FrameError::Incomplete);
    }
    let payload = vstd::slice::slice_subrange(b, 4, 4 + n_us);
    match decode_server_payload(payload) {
        Some(m) => Ok((m, 4 + n_us)),
        None => Err(FrameError::MalformedFrame),
    }
}


proof fn lemma_subrange_within(b: Seq<u8>, i: int, len: int, x: Seq<u8>, a: int, c: int)
    requires
        0 <= i,
        i + len <= b.len(),
        x.len() == len,
        b.subrange(i, i + len) == x,
        0 <= a <= c <= len,
    ensures
        b.subrange(i + a, i + c) == x.subrange(a, c),
{
    assert forall|k: int| 0 <= k < c - a implies b.subrange(i + a, i + c)[k] == x.subrange(
        a,
        c,
    )[k] by {
        assert(b.subrange(i, i + len)[a + k] == x[a + k]);
    }
    assert(b.subrange(i + a, i + c) =~= x.subrange(a, c));
}

proof fn lemma_dec_u32_at(b: Seq<u8>, i: int, x: u32)
    requires
        0 <= i,
        i + 4 <= b.len(),
        b.subrange(i, i + 4) == be32(x),
    ensures
        dec_u32(b, i) == Some((x, i + 4)),
{
    lemma_be32_round_trip(x);
}

proof fn lemma_dec_u64_at(b: Seq<u8>, i: int, x: u64)
    requires
        0 <= i,
        i + 8 <= b.len(),
        b.subrange(i, i + 8) == be64(x),
    ensures
        dec_u64(b, i) == Some((x, i + 8)),
{
    lemma_be64_round_trip(x);
}

proof fn lemma_dec_uid_at(b: Seq<u8>, i: int, u: Uid)
    requires
        0 <= i,
        i + 16 <= b.len(),
        b.subrange(i, i + 16) == uid_bytes(u),
    ensures
        dec_uid(b, i) == Some((u, i + 16)),
{
    lemma_be64_round_trip(u.hi);
    lemma_be64_round_trip(u.lo);
    lemma_subrange_within(b, i, 16, uid_bytes(u), 0, 8);
    assert(uid_bytes(u).subrange(0, 8) =~= be64(u.hi));
    lemma_subrange_within(b, i, 16, uid_bytes(u), 8, 16);
    assert(uid_bytes(u).subrange(8, 16) =~= be64(u.lo));
}

proof fn lemma_dec_str_at(b: Seq<u8>, i: int, s: Seq<char>)
    requires
        str_fits(s),
        0 <= i,
        i + str_block(s).len() <= b.len(),
        b.subrange(i, i + str_block(s).len()) == str_block(s),
    ensures
        dec_str(b, i) == Some((s, i + str_block(s).len())),
{
    let u = encode_utf8(s);
    let n = u.len() as int;
    assert(str_block(s).len() == 4 + n);
    lemma_subrange_within(b, i, 4 + n, str_block(s), 0, 4);
    assert(str_block(s).subrange(0, 4) =~= be32(n as u32));
    lemma_dec_u32_at(b, i, n as u32);
    assert((n as u32) as int == n);
    lemma_subrange_within(b, i, 4 + n, str_block(s), 4, 4 + n);
    assert(str_block(s).subrange(4, 4 + n) =~= u);
    encode_utf8_valid_utf8(s);
    encode_utf8_decode_utf8(s);
}

proof fn lemma_dec_chat_at(b: Seq<u8>, i: int, c: ChatMessageView)
    requires
        str_fits(c.text),
        0 <= i,
        i + chat_block(c).len() <= b.len(),
        b.subrange(i, i + chat_block(c).len()) == chat_block(c),
    ensures
        dec_chat(b, i) == Some((c, i + chat_block(c).len())),
{
    let sb = str_block(c.text);
    let cb = chat_block(c);
    let len = cb.len() as int;
    assert(len == 24 + sb.len());
    lemma_subrange_within(b, i, len, cb, 0, 16);
    assert(cb.subrange(0, 16) =~= uid_bytes(c.from));
    lemma_dec_uid_at(b, i, c.from);
    lemma_subrange_within(b, i, len, cb, 16, 24);
    assert(cb.subrange(16, 24) =~= be64(c.timestamp));
    lemma_dec_u64_at(b, i + 16, c.timestamp);
    lemma_subrange_within(b, i, len, cb, 24, len);
    assert(cb.subrange(24, len) =~= sb);
    lemma_dec_str_at(b, i + 24, c.text);
    assert(ChatMessageView { from: c.from, text: c.text, timestamp: c.timestamp } =~= c);
}

proof fn lemma_dec_pair_at(b: Seq<u8>, i: int, p: (Uid, Seq<char>))
    requires
        str_fits(p.1),
        0 <= i,
        i + pair_block(p).len() <= b.len(),
        b.subrange(i, i + pair_block(p).len()) == pair_block(p),
    ensures
        dec_pair(b, i) == Some((p, i + pair_block(p).len())),
{
    let sb = str_block(p.1);
    let pb = pair_block(p);
    let len = pb.len() as int;
    assert(len == 16 + sb.len());
    lemma_subrange_within(b, i, len, pb, 0, 16);
    assert(pb.subrange(0, 16) =~= uid_bytes(p.0));
    lemma_dec_uid_at(b, i, p.0);
    lemma_subrange_within(b, i, len, pb, 16, len);
    assert(pb.subrange(16, len) =~= sb);
    lemma_dec_str_at(b, i + 16, p.1);
    assert((p.0, p.1) == p);
}

proof fn lemma_dec_chats_at(b: Seq<u8>, i: int, cs: Seq<ChatMessageView>)
    requires
        chats_fit(cs),
        0 <= i,
        i + chats_bytes(cs).len() <= b.len(),
        b.subrange(i, i + chats_bytes(cs).len()) == chats_bytes(cs),
    ensures
        dec_chats(b, i, cs.len() as int) == Some((cs, i + chats_bytes(cs).len())),
    decreases cs.len(),
{
    if cs.len() == 0 {
        assert(cs =~= Seq::<ChatMessageView>::empty());
    } else {
        let c = cs[0];
        let cb = chat_block(c);
        let rest = cs.drop_first();
        assert(chats_bytes(cs) == cb + chats_bytes(rest));
        let len = chats_bytes(cs).len() as int;
        let cl = cb.len() as int;
        lemma_subrange_within(b, i, len, chats_bytes(cs), 0, cl);
        assert(chats_bytes(cs).subrange(0, cl) =~= cb);
        assert(str_fits(cs[0].text));
        lemma_dec_chat_at(b, i, c);
        assert forall|k: int| 0 <= k < rest.len() implies str_fits(#[trigger] rest[k].text) by {
            assert(rest[k] == cs[k + 1]);
            assert(str_fits(cs[k + 1].text));
        }
        lemma_subrange_within(b, i, len, chats_bytes(cs), cl, len);
        assert(chats_bytes(cs).subrange(cl, len) =~= chats_bytes(rest));
        lemma_dec_chats_at(b, i + cl, rest);
        assert(seq![c] + rest =~= cs);
    }
}

proof fn lemma_dec_pairs_at(b: Seq<u8>, i: int, ps: Seq<(Uid, Seq<char>)>)
    requires
        pairs_fit(ps),
        0 <= i,
        i + pairs_bytes(ps).len() <= b.len(),
        b.subrange(i, i + pairs_bytes(ps).len()) == pairs_bytes(ps),
    ensures
        dec_pairs(b, i, ps.len() as int) == Some((ps, i + pairs_bytes(ps).len())),
    decreases ps.len(),
{
    if ps.len() == 0 {
        assert(ps =~= Seq::<(Uid, Seq<char>)>::empty());
    } else {
        let p = ps[0];
        let pb = pair_block(p);
        let rest = ps.drop_first();
        assert(pairs_bytes(ps) == pb + pairs_bytes(rest));
        let len = pairs_bytes(ps).len() as int;
        let pl = pb.len() as int;
        lemma_subrange_within(b, i, len, pairs_bytes(ps), 0, pl);
        assert(pairs_bytes(ps).subrange(0, pl) =~= pb);
        assert(str_fits(ps[0].1));
        lemma_dec_pair_at(b, i, p);
        assert forall|k: int| 0 <= k < rest.len() implies str_fits(#[trigger] rest[k].1) by {
            assert(rest[k] == ps[k + 1]);
            assert(str_fits(ps[k + 1].1));
        }
        lemma_subrange_within(b, i, len, pairs_bytes(ps), pl, len);
        assert(pairs_bytes(ps).subrange(pl, len) =~= pairs_bytes(rest));
        lemma_dec_pairs_at(b, i + pl, rest);
        assert(seq![p] + rest =~= ps);
    }
}

proof fn lemma_client_payload_round_trip(m: ClientMessageView)
    requires
        client_payload_ok(m),
    ensures
        client_payload_dec(client_payload(m)) == Some(m),
{
    let b = client_payload(m);
    let len = b.len() as int;
    assert(b.subrange(0, len) =~= b);
    match m {
        ClientMessageView::Chat { text } => {
            assert(b[0] == 0u8);
            assert(len == 1 + str_block(text).len());
            lemma_subrange_within(b, 0, len, b, 1, len);
            assert(b.subrange(1, len) =~= str_block(text));
            lemma_dec_str_at(b, 1, text);
        },
        ClientMessageView::JoinRequest { username } => {
            assert(b[0] == 1u8);
            assert(len == 1 + str_block(username).len());
            lemma_subrange_within(b, 0, len, b, 1, len);
            assert(b.subrange(1, len) =~= str_block(username));
            lemma_dec_str_at(b, 1, username);
        },
    }
}

#[verifier::rlimit(100)]
#[verifier::spinoff_prover]
proof fn lemma_join_accepted_payload_round_trip(m: ServerMessageView)
    requires
        server_payload_ok(m),
        m is JoinAccepted,
    ensures
        server_payload_dec(server_payload(m)) == Some(m),
{
    let b = server_payload(m);
    let len = b.len() as int;
    assert(b.subrange(0, len) =~= b);
    match m {
        ServerMessageView::JoinAccepted { history, participants } => {
            let lh = chats_bytes(history).len() as int;
            let lp = pairs_bytes(participants).len() as int;
            assert(b[0] == 1u8);
            assert(len == 9 + lh + lp);
            lemma_subrange_within(b, 0, len, b, 1, 5);
            assert(b.subrange(1, 5) =~= be32(history.len() as u32));
            lemma_dec_u32_at(b, 1, history.len() as u32);
            assert((history.len() as u32) as int == history.len() as int);
            lemma_subrange_within(b, 0, len, b, 5, 5 + lh);
            assert(b.subrange(5, 5 + lh) =~= chats_bytes(history));
            lemma_dec_chats_at(b, 5, history);
            lemma_subrange_within(b, 0, len, b, 5 + lh, 9 + lh);
            assert(b.subrange(5 + lh, 9 + lh) =~= be32(participants.len() as u32));
            lemma_dec_u32_at(b, 5 + lh, participants.len() as u32);
            assert((participants.len() as u32) as int == participants.len() as int);
            lemma_subrange_within(b, 0, len, b, 9 + lh, 9 + lh + lp);
            assert(b.subrange(9 + lh, 9 + lh + lp) =~= pairs_bytes(participants));
            lemma_dec_pairs_at(b, 9 + lh, participants);
        },
        _ => {},
    }
}

#[verifier::rlimit(100)]
#[verifier::spinoff_prover]
proof fn lemma_server_payload_round_trip(m: ServerMessageView)
    requires
        server_payload_ok(m),
    ensures
        server_payload_dec(server_payload(m)) == Some(m),
{
    let b = server_payload(m);
    let len = b.len() as int;
    assert(b.subrange(0, len) =~= b);
    match m {
        ServerMessageView::Chat(c) => {
            assert(b[0] == 0u8);
            assert(len == 1 + chat_block(c).len());
            lemma_subrange_within(b, 0, len, b, 1, len);
            assert(b.subrange(1, len) =~= chat_block(c));
            lemma_dec_chat_at(b, 1, c);
        },
        ServerMessageView::JoinAccepted { history, participants } => {
            lemma_join_accepted_payload_round_trip(m);
        },
        ServerMessageView::UserJoined { uuid, username } => {
            assert(b[0] == 2u8);
            assert(len == 17 + str_block(username).len());
            lemma_subrange_within(b, 0, len, b, 1, 17);
            assert(b.subrange(1, 17) =~= uid_bytes(uuid));
            lemma_dec_uid_at(b, 1, uuid);
            lemma_subrange_within(b, 0, len, b, 17, len);
            assert(b.subrange(17, len) =~= str_block(username));
            lemma_dec_str_at(b, 17, username);
        },
        ServerMessageView::UserLeft { uuid } => {
            assert(b[0] == 3u8);
            assert(len == 17);
            lemma_subrange_within(b, 0, len, b, 1, 17);
            assert(b.subrange(1, 17) =~= uid_bytes(uuid));
            lemma_dec_uid_at(b, 1, uuid);
        },
    }
}

/// Round trip for client messages: for every value that fits the framing,
/// decoding the encoded frame consumes the whole frame and yields the
/// original value.
pub proof fn lemma_client_round_trip(m: ClientMessageView)
    requires
        client_encodable(m),
    ensures
        frame_payload(client_frame(m)) == Some(client_payload(m)),
        client_payload_dec(client_payload(m)) == Some(m),
        client_frame(m).len() == 4 + client_payload(m).len(),
{
    lemma_client_payload_round_trip(m);
    let p = client_payload(m);
    let f = client_frame(m);
    assert(f.subrange(0, 4) =~= be32(p.len() as u32));
    lemma_be32_round_trip(p.len() as u32);
    assert((p.len() as u32) as int == p.len() as int);
    assert(f.subrange(4, 4 + p.len() as int) =~= p);
}

/// Round trip for server messages: for every value that fits the framing,
/// decoding the encoded frame consumes the whole frame and yields the
/// original value.
#[verifier::rlimit(60)]
pub proof fn lemma_server_round_trip(m: ServerMessageView)
    requires
        server_encodable(m),
    ensures
        frame_payload(server_frame(m)) == Some(server_payload(m)),
        server_payload_dec(server_payload(m)) == Some(m),
        server_frame(m).len() == 4 + server_payload(m).len(),
{
    lemma_server_payload_round_trip(m);
    let p = server_payload(m);
    let f = server_frame(m);
    assert(f.subrange(0, 4) =~= be32(p.len() as u32));
    lemma_be32_round_trip(p.len() as u32);
    assert((p.len() as u32) as int == p.len() as int);
    assert(f.subrange(4, 4 + p.len() as int) =~= p);
}

} // verus!


