//! The shared room: a registry of participants, each with a username and an
//! outbound queue of encoded frames, and an append-only chat history. The
//! operations — join, leave, relay — mutate the registry and history and push
//! broadcast frames onto the queues of the participants they concern, never
//! onto the sender's own. Each operation's effect is stated by a spec-level
//! transition on the room's mathematical value.

use vstd::prelude::*;

use crate::codec::{encode_message, server_encodable, server_frame, server_payload};
use crate::error::Error;
use crate::protocol::{chats_view, roster_view, ChatMessage, ChatMessageView};
use crate::protocol::{ServerMessage, ServerMessageView};
use crate::uid::Uid;

verus! {

/// One registry entry's payload: the participant's username and the frames
/// queued for it that its connection has not yet drained. The queue stands
/// for the participant's outbound channel: unbounded, in delivery order.
pub struct Participant {
    pub username: String,
    pub outbound: Vec<Vec<u8>>,
}

/// The mathematical value of a `Participant`.
#[verifier::ext_equal]
pub struct ParticipantView {
    pub username: Seq<char>,
    pub outbound: Seq<Seq<u8>>,
}

/// The values of a queue of frames.
pub open spec fn frames_view(v: Seq<Vec<u8>>) -> Seq<Seq<u8>> {
    v.map_values(|f: Vec<u8>| f@)
}

impl View for Participant {
    type V = ParticipantView;

    open spec fn view(&self) -> ParticipantView {
        ParticipantView { username: self.username@, outbound: frames_view(self.outbound@) }
    }
}

impl Participant {
    /// A new participant with an empty outbound queue.
    pub fn new(username: String) -> (r: Participant)
        ensures
            r@ == (ParticipantView { username: username@, outbound: Seq::<Seq<u8>>::empty() }),
    {
        let p = Participant { username, outbound: Vec::new() };
        proof {
            assert(frames_view(p.outbound@) =~= Seq::<Seq<u8>>::empty());
            assert(p@ =~= (ParticipantView {
                username: p.username@,
                outbound: Seq::<Seq<u8>>::empty(),
            }));
        }
        p
    }
}

/// The room: the registry and the history, the only state shared across
/// connections.
pub struct ChatRoom {
    participants: Vec<(Uid, Participant)>,
    history: Vec<ChatMessage>,
}

/// The mathematical value of a `ChatRoom`.
#[verifier::ext_equal]
pub struct RoomView {
    pub participants: Seq<(Uid, ParticipantView)>,
    pub history: Seq<ChatMessageView>,
}

/// The value of one registry entry.
pub open spec fn entry_view(e: (Uid, Participant)) -> (Uid, ParticipantView) {
    (e.0, e.1@)
}

/// The values of the registry, in registry order.
pub open spec fn registry_view(s: Seq<(Uid, Participant)>) -> Seq<(Uid, ParticipantView)> {
    s.map_values(|e: (Uid, Participant)| entry_view(e))
}

impl View for ChatRoom {
    type V = RoomView;

    closed spec fn view(&self) -> RoomView {
        RoomView {
            participants: registry_view(self.participants@),
            history: chats_view(self.history@),
        }
    }
}

/// Whether a registry holds no identifier twice.
pub open spec fn uids_distinct(s: Seq<(Uid, ParticipantView)>) -> bool {
    forall|i: int, j: int| 0 <= i < j < s.len() ==> s[i].0 != s[j].0
}

impl RoomView {
    /// The room's invariant: an identifier appears at most once.
    pub open spec fn wf(self) -> bool {
        uids_distinct(self.participants)
    }
}

/// Whether the registry holds `id`.
pub open spec fn room_contains(s: RoomView, id: Uid) -> bool {
    exists|i: int| 0 <= i < s.participants.len() && s.participants[i].0 == id
}

/// The registry position of `id`, when the registry holds it.
pub open spec fn index_of_id(s: Seq<(Uid, ParticipantView)>, id: Uid) -> int {
    choose|i: int| 0 <= i < s.len() && s[i].0 == id
}

/// The roster: each participant's identifier and username, in registry order.
pub open spec fn usernames_of(s: Seq<(Uid, ParticipantView)>) -> Seq<(Uid, Seq<char>)> {
    s.map_values(|e: (Uid, ParticipantView)| (e.0, e.1.username))
}

/// One entry with one more frame queued.
pub open spec fn push_frame(e: (Uid, ParticipantView), f: Seq<u8>) -> (Uid, ParticipantView) {
    (e.0, ParticipantView { username: e.1.username, outbound: e.1.outbound.push(f) })
}

/// The registry after a broadcast from `sender`: every other participant has
/// the frame queued; an entry whose identifier is the sender's is untouched.
pub open spec fn push_to_others(
    s: Seq<(Uid, ParticipantView)>,
    sender: Uid,
    f: Seq<u8>,
) -> Seq<(Uid, ParticipantView)> {
    s.map_values(
        |e: (Uid, ParticipantView)|
            if e.0 == sender {
                e
            } else {
                push_frame(e, f)
            },
    )
}

/// The join reply for a room: its history so far and its roster, the joining
/// participant itself excluded.
pub open spec fn join_reply(s: RoomView) -> ServerMessageView {
    ServerMessageView::JoinAccepted {
        history: s.history,
        participants: usernames_of(s.participants),
    }
}

/// The room after `join`: the entry is added; if the reply encodes, its
/// frame is queued for the new participant alone; if the joined notice
/// encodes too, that frame is queued for everyone else.
pub open spec fn spec_join(s: RoomView, id: Uid, p: ParticipantView) -> RoomView {
    let reply = join_reply(s);
    let notice = ServerMessageView::UserJoined { uuid: id, username: p.username };
    if !server_encodable(reply) {
        RoomView { participants: s.participants.push((id, p)), history: s.history }
    } else {
        let served = ParticipantView {
            username: p.username,
            outbound: p.outbound.push(server_frame(reply)),
        };
        let with_new = s.participants.push((id, served));
        if !server_encodable(notice) {
            RoomView { participants: with_new, history: s.history }
        } else {
            RoomView {
                participants: push_to_others(with_new, id, server_frame(notice)),
                history: s.history,
            }
        }
    }
}

/// The room after `leave`: a no-op for an absent identifier; otherwise the
/// entry is removed and the departure notice is queued for all who remain.
pub open spec fn spec_leave(s: RoomView, id: Uid) -> RoomView {
    if !room_contains(s, id) {
        s
    } else {
        let removed = s.participants.remove(index_of_id(s.participants, id));
        RoomView {
            participants: push_to_others(
                removed,
                id,
                server_frame(ServerMessageView::UserLeft { uuid: id }),
            ),
            history: s.history,
        }
    }
}

/// Whether a relayed message encodes as a broadcast frame.
pub open spec fn relay_ok(m: ChatMessageView) -> bool {
    server_encodable(ServerMessageView::Chat(m))
}

/// The room after `relay`: the message joins the history in every case; if
/// it encodes, its frame is queued for every participant but the sender.
pub open spec fn spec_relay(s: RoomView, m: ChatMessageView, sender: Uid) -> RoomView {
    if relay_ok(m) {
        RoomView {
            participants: push_to_others(
                s.participants,
                sender,
                server_frame(ServerMessageView::Chat(m)),
            ),
            history: s.history.push(m),
        }
    } else {
        RoomView { participants: s.participants, history: s.history.push(m) }
    }
}

/// How `push_to_others` touches each entry: identifiers and usernames stay;
/// the sender's queue stays; every other queue grows by exactly the frame.
pub proof fn lemma_push_to_others_pointwise(s: Seq<(Uid, ParticipantView)>, sender: Uid, f: Seq<u8>)
    ensures
        push_to_others(s, sender, f).len() == s.len(),
        forall|k: int|
            0 <= k < s.len() ==> (#[trigger] push_to_others(s, sender, f)[k]) == (if s[k].0
                == sender {
                s[k]
            } else {
                push_frame(s[k], f)
            }),
{
}

proof fn lemma_remove_keeps_distinct(s: Seq<(Uid, ParticipantView)>, i: int)
    requires
        uids_distinct(s),
        0 <= i < s.len(),
    ensures
        uids_distinct(s.remove(i)),
{
    let t = s.remove(i);
    assert forall|a: int, b: int| 0 <= a < b < t.len() implies t[a].0 != t[b].0 by {
        assert(t[a] == (if a < i {
            s[a]
        } else {
            s[a + 1]
        }));
        assert(t[b] == (if b < i {
            s[b]
        } else {
            s[b + 1]
        }));
    }
}

/// The departure notice always fits one frame.
pub proof fn lemma_user_left_encodable(id: Uid)
    ensures
        server_encodable(ServerMessageView::UserLeft { uuid: id }),
{
    assert(server_payload(ServerMessageView::UserLeft { uuid: id }).len() == 17);
}

fn clone_frame(b: &Vec<u8>) -> (r: Vec<u8>)
    ensures
        r@ == b@,
{
    let mut out: Vec<u8> = Vec::new();
    let mut i: usize = 0;
    while i < b.len()
        invariant
            i <= b@.len(),
            out@ == b@.subrange(0, i as int),
        decreases b@.len() - i,
    {
        out.push(b[i]);
        proof {
            assert(out@ =~= b@.subrange(0, i + 1));
        }
        i = i + 1;
    }
    proof {
        assert(b@.subrange(0, b@.len() as int) =~= b@);
    }
    out
}

impl ChatRoom {
    /// An empty room: nobody joined, nothing said.
    pub fn new() -> (r: ChatRoom)
        ensures
            r@ == (RoomView {
                participants: Seq::<(Uid, ParticipantView)>::empty(),
                history: Seq::<ChatMessageView>::empty(),
            }),
            r@.wf(),
    {
        let r = ChatRoom { participants: Vec::new(), history: Vec::new() };
        proof {
            assert(registry_view(r.participants@) =~= Seq::<(Uid, ParticipantView)>::empty());
            assert(chats_view(r.history@) =~= Seq::<ChatMessageView>::empty());
            assert(r@ =~= (RoomView {
                participants: Seq::<(Uid, ParticipantView)>::empty(),
                history: Seq::<ChatMessageView>::empty(),
            }));
        }
        r
    }

    fn find_index(&self, uuid: &Uid) -> (r: Option<usize>)
        ensures
            match r {
                Some(i) => {
                    &&& i < self@.participants.len()
                    &&& self@.participants[i as int].0 == *uuid
                    &&& room_contains(self@, *uuid)
                    &&& self@.wf() ==> i as int == index_of_id(self@.participants, *uuid)
                },
                None => !room_contains(self@, *uuid),
            },
    {
        let mut i: usize = 0;
        while i < self.participants.len()
            invariant
                i <= self.participants@.len(),
                forall|k: int|
                    0 <= k < i ==> (#[trigger] registry_view(self.participants@)[k]).0 != *uuid,
            decreases self.participants@.len() - i,
        {
            if self.participants[i].0 == *uuid {
                proof {
                    assert(registry_view(self.participants@)[i as int].0 == *uuid);
                    if self@.wf() {
                        let j = index_of_id(self@.participants, *uuid);
                        assert(0 <= j < self@.participants.len() && self@.participants[j].0
                            == *uuid);
                        if j != i as int {
                            assert(false);
                        }
                    }
                }
                return Some(i);
            }
            i = i + 1;
        }
        None
    }

    /// Whether the registry holds `uuid`.
    pub fn contains(&self, uuid: &Uid) -> (r: bool)
        ensures
            r == room_contains(self@, *uuid),
    {
        match self.find_index(uuid) {
            Some(_) => true,
            None => false,
        }
    }

    /// A copy of the history, in relay order.
    pub fn get_history(&self) -> (r: Vec<ChatMessage>)
        ensures
            chats_view(r@) == self@.history,
    {
        crate::protocol::clone_chat_messages(&self.history)
    }

    /// The roster: each participant's identifier and username, in registry
    /// order.
    pub fn get_usernames(&self) -> (r: Vec<(Uid, String)>)
        ensures
            roster_view(r@) == usernames_of(self@.participants),
    {
        let mut out: Vec<(Uid, String)> = Vec::new();
        let mut i: usize = 0;
        while i < self.participants.len()
            invariant
                i <= self.participants@.len(),
                out@.len() == i as int,
                forall|k: int|
                    0 <= k < i ==> (#[trigger] out@[k]).0 == self.participants@[k].0 && out@[k].1@
                        == self.participants@[k].1@.username,
            decreases self.participants@.len() - i,
        {
            out.push((self.participants[i].0, self.participants[i].1.username.clone()));
            i = i + 1;
        }
        proof {
            assert(roster_view(out@) =~= usernames_of(registry_view(self.participants@)));
        }
        out
    }

    fn add_participant(&mut self, uuid: Uid, participant: Participant)
        ensures
            final(self)@.participants == old(self)@.participants.push((uuid, participant@)),
            final(self)@.history == old(self)@.history,
    {
        let ghost pv = participant@;
        self.participants.push((uuid, participant));
        proof {
            assert(registry_view(self.participants@) =~= registry_view(
                old(self).participants@,
            ).push((uuid, pv)));
        }
    }

    fn add_history(&mut self, message: ChatMessage)
        ensures
            final(self)@.history == old(self)@.history.push(message@),
            final(self)@.participants == old(self)@.participants,
    {
        let ghost mv = message@;
        self.history.push(message);
        proof {
            assert(chats_view(self.history@) =~= chats_view(old(self).history@).push(mv));
        }
    }

    fn broadcast(&mut self, message: ServerMessage, sender: &Uid) -> (r: Result<(), Error>)
        ensures
            server_encodable(message@) ==> {
                &&& r is Ok
                &&& final(self)@.participants == push_to_others(
                    old(self)@.participants,
                    *sender,
                    server_frame(message@),
                )
                &&& final(self)@.history == old(self)@.history
            },
            !server_encodable(message@) ==> {
                &&& final(self)@ == old(self)@
                &&& r matches Err(Error::EncodeError { message: em }) && em@ == message@
            },
    {
        let ghost mv = message@;
        let frame_bytes = match encode_message(&message) {
            Some(b) => b,
            None => {
                return Err(Error::EncodeError { message });
            },
        };
        proof {
            lemma_push_to_others_pointwise(
                registry_view(old(self).participants@),
                *sender,
                server_frame(mv),
            );
        }
        let mut i: usize = 0;
        while i < self.participants.len()
            invariant
                i <= self.participants@.len(),
                self.participants@.len() == old(self).participants@.len(),
                frame_bytes@ == server_frame(mv),
                self.history@ == old(self).history@,
                forall|k: int|
                    i <= k < self.participants@.len() ==> self.participants@[k] == old(
                        self,
                    ).participants@[k],
                forall|k: int|
                    0 <= k < i ==> (#[trigger] registry_view(self.participants@)[k])
                        == push_to_others(
                        registry_view(old(self).participants@),
                        *sender,
                        server_frame(mv),
                    )[k],
            decreases self.participants@.len() - i,
        {
            proof {
                lemma_push_to_others_pointwise(
                    registry_view(old(self).participants@),
                    *sender,
                    server_frame(mv),
                );
            }
            let ghost pre = self.participants@;
            if !(self.participants[i].0 == *sender) {
                let fcopy = clone_frame(&frame_bytes);
                self.participants[i].1.outbound.push(fcopy);
                proof {
                    assert(frames_view(self.participants@[i as int].1.outbound@) =~= frames_view(
                        pre[i as int].1.outbound@,
                    ).push(server_frame(mv)));
                    assert(registry_view(self.participants@)[i as int] =~= push_frame(
                        entry_view(pre[i as int]),
                        server_frame(mv),
                    ));
                    assert forall|k: int|
                        0 <= k < self.participants@.len() && k != i implies self.participants@[k]
                        == pre[k] by {}
                }
            } else {
                proof {
                    assert(registry_view(self.participants@)[i as int] == entry_view(
                        pre[i as int],
                    ));
                }
            }
            proof {
                let newp = self.participants@;
                let target = push_to_others(
                    registry_view(old(self).participants@),
                    *sender,
                    server_frame(mv),
                );
                assert forall|k: int| 0 <= k < i + 1 implies (#[trigger] registry_view(
                    newp,
                )[k]) == target[k] by {
                    assert(registry_view(newp)[k] == entry_view(newp[k]));
                    if k < i {
                        assert(newp[k] == pre[k]);
                        assert(registry_view(pre)[k] == entry_view(pre[k]));
                    } else {
                        assert(registry_view(old(self).participants@)[k] == entry_view(
                            old(self).participants@[k],
                        ));
                        assert(pre[k] == old(self).participants@[k]);
                    }
                }
            }
            i = i + 1;
        }
        proof {
            assert(registry_view(self.participants@) =~= push_to_others(
                registry_view(old(self).participants@),
                *sender,
                server_frame(mv),
            ));
        }
        Ok(())
    }

    /// Adds the participant under a fresh identifier, queues the join reply
    /// — the prior history and roster — for the new participant alone, then
    /// queues the joined notice for every other participant. On an encoding
    /// failure the entry stays and the failed message is handed back.
    pub fn join(&mut self, uuid: &Uid, participant: Participant) -> (r: Result<(), Error>)
        requires
            old(self)@.wf(),
            !room_contains(old(self)@, *uuid),
        ensures
            final(self)@ == spec_join(old(self)@, *uuid, participant@),
            final(self)@.wf(),
            ({
                let reply = join_reply(old(self)@);
                let notice = ServerMessageView::UserJoined {
                    uuid: *uuid,
                    username: participant@.username,
                };
                if server_encodable(reply) && server_encodable(notice) {
                    r is Ok
                } else if !server_encodable(reply) {
                    r matches Err(Error::EncodeError { message }) && message@ == reply
                } else {
                    r matches Err(Error::EncodeError { message }) && message@ == notice
                }
            }),
    {
        let ghost s0 = old(self)@;
        let ghost pv = participant@;
        let username = participant.username.clone();
        let history = self.get_history();
        let participants = self.get_usernames();
        self.add_participant(*uuid, participant);
        proof {
            lemma_fresh_push_distinct(s0.participants, *uuid, pv);
        }
        let reply = ServerMessage::JoinAccepted { history, participants };
        proof {
            assert(reply@ =~= join_reply(s0));
        }
        let frame_bytes = match encode_message(&reply) {
            Some(b) => b,
            None => {
                proof {
                    assert(self@ =~= spec_join(s0, *uuid, pv));
                }
                return Err(Error::EncodeError { message: reply });
            },
        };
        proof {
            assert(registry_view(self.participants@).len() == self.participants@.len());
        }
        let last = self.participants.len() - 1;
        let ghost pre = self.participants@;
        proof {
            assert(registry_view(pre)[last as int] == (*uuid, pv));
            assert(entry_view(pre[last as int]).1.outbound == pv.outbound);
        }
        self.participants[last].1.outbound.push(frame_bytes);
        proof {
            let served = ParticipantView {
                username: pv.username,
                outbound: pv.outbound.push(server_frame(join_reply(s0))),
            };
            assert(self.participants@[last as int].1.outbound@ == pre[last as int].1.outbound@.push(
                frame_bytes,
            ));
            assert(frames_view(self.participants@[last as int].1.outbound@) =~= pv.outbound.push(
                server_frame(join_reply(s0)),
            ));
            let newp = self.participants@;
            let goal = s0.participants.push((*uuid, served));
            assert(entry_view(newp[last as int]) =~= (*uuid, served));
            assert forall|k: int| 0 <= k < newp.len() implies (#[trigger] registry_view(
                newp,
            )[k]) == goal[k] by {
                assert(registry_view(newp)[k] == entry_view(newp[k]));
                if k < last as int {
                    assert(newp[k] == pre[k]);
                    assert(registry_view(pre)[k] == entry_view(pre[k]));
                }
            }
            assert(registry_view(newp) =~= goal);
            lemma_fresh_push_distinct(s0.participants, *uuid, served);
        }
        let notice = ServerMessage::UserJoined { uuid: *uuid, username };
        let ghost mid = self@;
        let r = self.broadcast(notice, uuid);
        proof {
            lemma_push_to_others_pointwise(
                mid.participants,
                *uuid,
                server_frame(ServerMessageView::UserJoined { uuid: *uuid, username: pv.username }),
            );
            assert(self@ =~= spec_join(s0, *uuid, pv));
        }
        r
    }

    /// Removes the entry for `uuid` and queues the departure notice for all
    /// who remain. Removing an absent identifier is a no-op, not an error,
    /// and notifies nobody; the notice always encodes, so leave never fails.
    pub fn leave(&mut self, uuid: &Uid) -> (r: Result<(), Error>)
        requires
            old(self)@.wf(),
        ensures
            final(self)@ == spec_leave(old(self)@, *uuid),
            final(self)@.wf(),
            r is Ok,
    {
        let ghost s0 = old(self)@;
        let idx = match self.find_index(uuid) {
            Some(i) => i,
            None => {
                return Ok(());
            },
        };
        self.participants.remove(idx);
        proof {
            assert(registry_view(self.participants@) =~= s0.participants.remove(idx as int));
            lemma_remove_keeps_distinct(s0.participants, idx as int);
        }
        let ghost mid = self@;
        let r = self.broadcast(ServerMessage::UserLeft { uuid: *uuid }, uuid);
        proof {
            lemma_user_left_encodable(*uuid);
            lemma_push_to_others_pointwise(
                mid.participants,
                *uuid,
                server_frame(ServerMessageView::UserLeft { uuid: *uuid }),
            );
            assert(self@ =~= spec_leave(s0, *uuid));
        }
        r
    }

    /// Appends the message to the history, then queues its chat notice for
    /// every participant but the sender. The history keeps the message even
    /// when the notice fails to encode.
    pub fn relay_message(&mut self, message: ChatMessage, sender: &Uid) -> (r: Result<(), Error>)
        requires
            old(self)@.wf(),
        ensures
            final(self)@ == spec_relay(old(self)@, message@, *sender),
            final(self)@.wf(),
            r is Ok <==> relay_ok(message@),
            !relay_ok(message@) ==> (r matches Err(Error::EncodeError { message: em }) && em@
                == ServerMessageView::Chat(message@)),
    {
        let ghost s0 = old(self)@;
        let ghost mv = message@;
        let copy = crate::protocol::clone_chat_message(&message);
        self.add_history(copy);
        let ghost mid = self@;
        let r = self.broadcast(ServerMessage::Chat(message), sender);
        proof {
            lemma_push_to_others_pointwise(
                mid.participants,
                *sender,
                server_frame(ServerMessageView::Chat(mv)),
            );
            assert(self@ =~= spec_relay(s0, mv, *sender));
        }
        r
    }

    /// Hands over and empties the frames queued for `uuid`, in delivery
    /// order: what the participant's connection writes to its socket next.
    pub fn take_outbound(&mut self, uuid: &Uid) -> (r: Vec<Vec<u8>>)
        requires
            old(self)@.wf(),
        ensures
            final(self)@.wf(),
            final(self)@.history == old(self)@.history,
            room_contains(old(self)@, *uuid) ==> {
                let i = index_of_id(old(self)@.participants, *uuid);
                &&& frames_view(r@) == old(self)@.participants[i].1.outbound
                &&& final(self)@.participants == old(self)@.participants.update(
                    i,
                    (
                        old(self)@.participants[i].0,
                        ParticipantView {
                            username: old(self)@.participants[i].1.username,
                            outbound: Seq::<Seq<u8>>::empty(),
                        },
                    ),
                )
            },
            !room_contains(old(self)@, *uuid) ==> {
                &&& frames_view(r@) == Seq::<Seq<u8>>::empty()
                &&& final(self)@ == old(self)@
            },
    {
        let ghost s0 = old(self)@;
        let idx = match self.find_index(uuid) {
            Some(i) => i,
            None => {
                let r: Vec<Vec<u8>> = Vec::new();
                proof {
                    assert(frames_view(r@) =~= Seq::<Seq<u8>>::empty());
                }
                return r;
            },
        };
        let mut taken: Vec<Vec<u8>> = Vec::new();
        core::mem::swap(&mut self.participants[idx].1.outbound, &mut taken);
        proof {
            let i = idx as int;
            assert(frames_view(taken@) == s0.participants[i].1.outbound);
            assert(frames_view(self.participants@[i].1.outbound@) =~= Seq::<Seq<u8>>::empty());
            assert(registry_view(self.participants@) =~= s0.participants.update(
                i,
                (
                    s0.participants[i].0,
                    ParticipantView {
                        username: s0.participants[i].1.username,
                        outbound: Seq::<Seq<u8>>::empty(),
                    },
                ),
            ));
            assert forall|a: int, b: int|
                0 <= a < b < registry_view(self.participants@).len() implies registry_view(
                self.participants@,
            )[a].0 != registry_view(self.participants@)[b].0 by {}
        }
        taken
    }
}

proof fn lemma_fresh_push_distinct(s: Seq<(Uid, ParticipantView)>, id: Uid, p: ParticipantView)
    requires
        uids_distinct(s),
        !room_contains(RoomView { participants: s, history: Seq::empty() }, id),
    ensures
        uids_distinct(s.push((id, p))),
{
    let t = s.push((id, p));
    assert forall|a: int, b: int| 0 <= a < b < t.len() implies t[a].0 != t[b].0 by {
        if b == s.len() {
            assert(t[a] == s[a]);
            if s[a].0 == id {
                let rv = RoomView { participants: s, history: Seq::empty() };
                assert(rv.participants[a].0 == id);
                assert(room_contains(rv, id));
                assert(false);
            }
        } else {
            assert(t[a] == s[a]);
            assert(t[b] == s[b]);
        }
    }
}


/// No self-echo: a relay queues nothing for the sender; when the chat notice
/// encodes, every other participant's queue grows by exactly one copy of its
/// frame, and when it does not encode, nothing is queued for anybody.
pub proof fn lemma_no_self_echo(s: RoomView, m: ChatMessageView, sender: Uid)
    ensures
        ({
            let s2 = spec_relay(s, m, sender);
            let f = server_frame(ServerMessageView::Chat(m));
            &&& s2.participants.len() == s.participants.len()
            &&& forall|k: int|
                0 <= k < s.participants.len() && (#[trigger] s.participants[k]).0 == sender
                    ==> s2.participants[k] == s.participants[k]
            &&& forall|k: int|
                0 <= k < s.participants.len() && (#[trigger] s.participants[k]).0 != sender
                    ==> s2.participants[k] == (if relay_ok(m) {
                    push_frame(s.participants[k], f)
                } else {
                    s.participants[k]
                })
        }),
{
    if relay_ok(m) {
        lemma_push_to_others_pointwise(
            s.participants,
            sender,
            server_frame(ServerMessageView::Chat(m)),
        );
    }
}

/// Join snapshot completeness: the reply queued for a joining participant
/// carries the whole prior history in relay order and the whole prior
/// roster in registry order, one pair per participant with no identifier
/// repeated, and that frame reaches the new participant's queue exactly when
/// the reply encodes.
pub proof fn lemma_join_snapshot(s: RoomView, id: Uid, p: ParticipantView)
    requires
        s.wf(),
        !room_contains(s, id),
    ensures
        ({
            let reply = join_reply(s);
            let s2 = spec_join(s, id, p);
            let n = s.participants.len() as int;
            &&& usernames_of(s.participants).len() == s.participants.len()
            &&& forall|k: int|
                0 <= k < s.participants.len() ==> #[trigger] usernames_of(s.participants)[k] == (
                s.participants[k].0,
                s.participants[k].1.username,
                )
            &&& forall|i: int, j: int|
                0 <= i < j < s.participants.len() ==> usernames_of(s.participants)[i].0
                    != usernames_of(s.participants)[j].0
            &&& s2.history == s.history
            &&& s2.participants.len() == s.participants.len() + 1
            &&& s2.participants[n].0 == id
            &&& s2.participants[n].1.username == p.username
            &&& server_encodable(reply) ==> s2.participants[n].1.outbound == p.outbound.push(
                server_frame(reply),
            )
            &&& !server_encodable(reply) ==> s2.participants[n].1.outbound == p.outbound
        }),
{
    let reply = join_reply(s);
    let notice = ServerMessageView::UserJoined { uuid: id, username: p.username };
    let n = s.participants.len() as int;
    if server_encodable(reply) {
        let served = ParticipantView {
            username: p.username,
            outbound: p.outbound.push(server_frame(reply)),
        };
        let with_new = s.participants.push((id, served));
        if server_encodable(notice) {
            lemma_push_to_others_pointwise(with_new, id, server_frame(notice));
            assert(with_new[n].0 == id);
        }
    }
}

/// Leave idempotence: one leave removes the identifier from the registry, so
/// a second leave for the same identifier is a no-op — the departure notice
/// goes out at most once.
pub proof fn lemma_leave_idempotent(s: RoomView, id: Uid)
    requires
        s.wf(),
    ensures
        !room_contains(spec_leave(s, id), id),
        spec_leave(spec_leave(s, id), id) == spec_leave(s, id),
{
    if room_contains(s, id) {
        let i = index_of_id(s.participants, id);
        assert(0 <= i < s.participants.len() && s.participants[i].0 == id);
        let removed = s.participants.remove(i);
        let f = server_frame(ServerMessageView::UserLeft { uuid: id });
        assert forall|k: int| 0 <= k < removed.len() implies (#[trigger] removed[k]).0 != id by {
            if k < i {
                assert(removed[k] == s.participants[k]);
            } else {
                assert(removed[k] == s.participants[k + 1]);
            }
        }
        lemma_push_to_others_pointwise(removed, id, f);
        let s2 = spec_leave(s, id);
        assert forall|k: int|
            0 <= k < s2.participants.len() implies (#[trigger] s2.participants[k]).0 != id by {
            assert(s2.participants[k] == (if removed[k].0 == id {
                removed[k]
            } else {
                push_frame(removed[k], f)
            }));
        }
        assert(!room_contains(s2, id));
    }
}

/// Isolation under a slow consumer: replacing one participant's outbound
/// queue by any contents at all — as a peer that never drains its connection
/// would leave it — changes neither whether a relay succeeds, nor the
/// history, nor what any other participant receives from it.
pub proof fn lemma_slow_consumer_isolation(
    s: RoomView,
    w: int,
    q: Seq<Seq<u8>>,
    m: ChatMessageView,
    sender: Uid,
)
    requires
        0 <= w < s.participants.len(),
    ensures
        ({
            let slow = RoomView {
                participants: s.participants.update(
                    w,
                    (
                        s.participants[w].0,
                        ParticipantView { username: s.participants[w].1.username, outbound: q },
                    ),
                ),
                history: s.history,
            };
            let a = spec_relay(s, m, sender);
            let b = spec_relay(slow, m, sender);
            &&& b.history == a.history
            &&& b.participants.len() == a.participants.len()
            &&& forall|k: int|
                0 <= k < s.participants.len() && k != w ==> #[trigger] b.participants[k]
                    == a.participants[k]
        }),
{
    let slow = RoomView {
        participants: s.participants.update(
            w,
            (
                s.participants[w].0,
                ParticipantView { username: s.participants[w].1.username, outbound: q },
            ),
        ),
        history: s.history,
    };
    let f = server_frame(ServerMessageView::Chat(m));
    if relay_ok(m) {
        lemma_push_to_others_pointwise(s.participants, sender, f);
        lemma_push_to_others_pointwise(slow.participants, sender, f);
        assert forall|k: int|
            0 <= k < s.participants.len() && k != w implies #[trigger] spec_relay(
            slow,
            m,
            sender,
        ).participants[k] == spec_relay(s, m, sender).participants[k] by {
            assert(slow.participants[k] == s.participants[k]);
        }
    } else {
        assert forall|k: int|
            0 <= k < s.participants.len() && k != w implies #[trigger] spec_relay(
            slow,
            m,
            sender,
        ).participants[k] == spec_relay(s, m, sender).participants[k] by {
            assert(slow.participants[k] == s.participants[k]);
        }
    }
}

} // verus!

