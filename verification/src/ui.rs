//! The client's view of the conversation, as the front end renders it. The
//! widget toolkit stays outside; this model holds what the widgets display —
//! the lines of the conversation, who is online, which screen shows — and
//! decides how each server message and each input callback changes it.

use vstd::prelude::*;

use crate::client::UiMessage;
use crate::protocol::{roster_view, ChatMessageView, ServerMessage, ServerMessageView};
use crate::uid::Uid;

verus! {

/// What kind of line the conversation shows: a message, or a notice that
/// somebody joined or left. How a notice is worded is the front end's
/// business; the model keeps the event and the name.
#[derive(Debug, Clone, Copy, PartialEq, Eq, Structural)]
pub enum LineKind {
    Message,
    Joined,
    Left,
}

/// One line of the conversation.
#[derive(Debug, Clone, PartialEq)]
pub struct ChatLine {
    pub kind: LineKind,
    pub username: String,
    pub text: String,
    pub is_author: bool,
}

/// The mathematical value of a `ChatLine`.
#[verifier::ext_equal]
pub struct ChatLineView {
    pub kind: LineKind,
    pub username: Seq<char>,
    pub text: Seq<char>,
    pub is_author: bool,
}

impl View for ChatLine {
    type V = ChatLineView;

    open spec fn view(&self) -> ChatLineView {
        ChatLineView {
            kind: self.kind,
            username: self.username@,
            text: self.text@,
            is_author: self.is_author,
        }
    }
}

/// The values of a sequence of lines.
pub open spec fn lines_view(v: Seq<ChatLine>) -> Seq<ChatLineView> {
    v.map_values(|l: ChatLine| l@)
}

/// The values of a list of names.
pub open spec fn names_view(v: Seq<String>) -> Seq<Seq<char>> {
    v.map_values(|s: String| s@)
}

/// What the front end displays: the conversation, the users online, and
/// whether the chat screen (rather than the join screen) shows.
pub struct App {
    pub chats: Vec<ChatLine>,
    pub online_users: Vec<String>,
    pub in_chat: bool,
}

/// The mathematical value of an `App`.
#[verifier::ext_equal]
pub struct AppView {
    pub chats: Seq<ChatLineView>,
    pub online_users: Seq<Seq<char>>,
    pub in_chat: bool,
}

impl View for App {
    type V = AppView;

    open spec fn view(&self) -> AppView {
        AppView {
            chats: lines_view(self.chats@),
            online_users: names_view(self.online_users@),
            in_chat: self.in_chat,
        }
    }
}

/// The username under which an identifier is known: the first entry for it,
/// if any.
pub open spec fn lookup_user(users: Seq<(Uid, Seq<char>)>, id: Uid) -> Option<Seq<char>>
    decreases users.len(),
{
    if users.len() == 0 {
        None
    } else if users[0].0 == id {
        Some(users[0].1)
    } else {
        lookup_user(users.drop_first(), id)
    }
}

/// The list with the first entry for an identifier taken out.
pub open spec fn remove_user(users: Seq<(Uid, Seq<char>)>, id: Uid) -> Seq<(Uid, Seq<char>)>
    decreases users.len(),
{
    if users.len() == 0 {
        users
    } else if users[0].0 == id {
        users.drop_first()
    } else {
        seq![users[0]] + remove_user(users.drop_first(), id)
    }
}

/// The usernames of a roster, in order.
pub open spec fn names_of(ps: Seq<(Uid, Seq<char>)>) -> Seq<Seq<char>> {
    ps.map_values(|p: (Uid, Seq<char>)| p.1)
}

/// The line a chat message shows as, given who is known: its author's name
/// where known, empty where not.
pub open spec fn line_of_chat(users: Seq<(Uid, Seq<char>)>, c: ChatMessageView) -> ChatLineView {
    ChatLineView {
        kind: LineKind::Message,
        username: match lookup_user(users, c.from) {
            Option::Some(n) => n,
            Option::None => Seq::empty(),
        },
        text: c.text,
        is_author: false,
    }
}

/// The lines a replayed history shows as, given who is known.
pub open spec fn lines_of_history(
    users: Seq<(Uid, Seq<char>)>,
    cs: Seq<ChatMessageView>,
) -> Seq<ChatLineView> {
    cs.map_values(|c: ChatMessageView| line_of_chat(users, c))
}

proof fn lemma_lookup_at(s: Seq<(Uid, Seq<char>)>, id: Uid, idx: int)
    requires
        0 <= idx < s.len(),
        s[idx].0 == id,
        forall|k: int| 0 <= k < idx ==> (#[trigger] s[k]).0 != id,
    ensures
        lookup_user(s, id) == Some(s[idx].1),
    decreases idx,
{
    if idx == 0 {
    } else {
        assert(s[0].0 != id);
        let t = s.drop_first();
        assert(t[idx - 1] == s[idx]);
        assert forall|k: int| 0 <= k < idx - 1 implies (#[trigger] t[k]).0 != id by {
            assert(t[k] == s[k + 1]);
        }
        lemma_lookup_at(t, id, idx - 1);
    }
}

proof fn lemma_lookup_none(s: Seq<(Uid, Seq<char>)>, id: Uid)
    requires
        forall|k: int| 0 <= k < s.len() ==> (#[trigger] s[k]).0 != id,
    ensures
        lookup_user(s, id) is None,
    decreases s.len(),
{
    if s.len() > 0 {
        let t = s.drop_first();
        assert forall|k: int| 0 <= k < t.len() implies (#[trigger] t[k]).0 != id by {
            assert(t[k] == s[k + 1]);
        }
        lemma_lookup_none(t, id);
    }
}

proof fn lemma_remove_user_at(s: Seq<(Uid, Seq<char>)>, id: Uid, idx: int)
    requires
        0 <= idx < s.len(),
        s[idx].0 == id,
        forall|k: int| 0 <= k < idx ==> (#[trigger] s[k]).0 != id,
    ensures
        remove_user(s, id) == s.remove(idx),
    decreases idx,
{
    if idx == 0 {
        assert(remove_user(s, id) =~= s.remove(0));
    } else {
        assert(s[0].0 != id);
        let t = s.drop_first();
        assert(t[idx - 1] == s[idx]);
        assert forall|k: int| 0 <= k < idx - 1 implies (#[trigger] t[k]).0 != id by {
            assert(t[k] == s[k + 1]);
        }
        lemma_remove_user_at(t, id, idx - 1);
        assert(seq![s[0]] + t.remove(idx - 1) =~= s.remove(idx));
    }
}

/// The model behind the front end: the display state and the identities the
/// client has learned.
pub struct Ui {
    app: App,
    users: Vec<(Uid, String)>,
}

/// The mathematical value of a `Ui`.
#[verifier::ext_equal]
pub struct UiModel {
    pub app: AppView,
    pub users: Seq<(Uid, Seq<char>)>,
}

impl View for Ui {
    type V = UiModel;

    closed spec fn view(&self) -> UiModel {
        UiModel { app: self.app@, users: roster_view(self.users@) }
    }
}

impl Ui {
    /// A fresh client view: nothing shown, nobody known, join screen up.
    pub fn new() -> (r: Ui)
        ensures
            r@ == (UiModel {
                app: AppView {
                    chats: Seq::<ChatLineView>::empty(),
                    online_users: Seq::<Seq<char>>::empty(),
                    in_chat: false,
                },
                users: Seq::<(Uid, Seq<char>)>::empty(),
            }),
    {
        let r = Ui {
            app: App { chats: Vec::new(), online_users: Vec::new(), in_chat: false },
            users: Vec::new(),
        };
        proof {
            assert(lines_view(r.app.chats@) =~= Seq::<ChatLineView>::empty());
            assert(names_view(r.app.online_users@) =~= Seq::<Seq<char>>::empty());
            assert(roster_view(r.users@) =~= Seq::<(Uid, Seq<char>)>::empty());
            assert(r@ =~= (UiModel {
                app: AppView {
                    chats: Seq::<ChatLineView>::empty(),
                    online_users: Seq::<Seq<char>>::empty(),
                    in_chat: false,
                },
                users: Seq::<(Uid, Seq<char>)>::empty(),
            }));
        }
        r
    }

    /// The display state the front end reads.
    pub fn handle(&self) -> (r: &App)
        ensures
            r@ == self@.app,
    {
        &self.app
    }

    /// What the join callback sends the networking task.
    pub fn on_join(&self, address: String, username: String) -> (r: UiMessage)
        ensures
            r matches UiMessage::JoinRoom { address: a, username: u } && a@ == address@ && u@
                == username@,
    {
        UiMessage::JoinRoom { address, username }
    }

    /// What the send callback sends the networking task.
    pub fn on_send_message(&self, message: String) -> (r: UiMessage)
        ensures
            r matches UiMessage::SendChat { text: t } && t@ == message@,
    {
        UiMessage::SendChat { text: message }
    }

    fn find_user(&self, id: &Uid) -> (r: Option<String>)
        ensures
            match r {
                Some(n) => lookup_user(self@.users, *id) == Some(n@),
                None => lookup_user(self@.users, *id) is None,
            },
    {
        let mut i: usize = 0;
        while i < self.users.len()
            invariant
                i <= self.users@.len(),
                forall|k: int| 0 <= k < i ==> (#[trigger] roster_view(self.users@)[k]).0 != *id,
            decreases self.users@.len() - i,
        {
            if self.users[i].0 == *id {
                let name = self.users[i].1.clone();
                proof {
                    assert(roster_view(self.users@)[i as int] == (self.users@[i as int].0, name@));
                    lemma_lookup_at(roster_view(self.users@), *id, i as int);
                }
                return Some(name);
            }
            proof {
                assert(roster_view(self.users@)[i as int].0 == self.users@[i as int].0);
            }
            i = i + 1;
        }
        proof {
            lemma_lookup_none(roster_view(self.users@), *id);
        }
        None
    }

    /// Applies one incoming server message to the display. A chat shows as a
    /// line under its author's known name; the join reply fills the roster
    /// and the prior conversation and raises the chat screen; a joined or
    /// left notice records the identity change and shows its own line — a
    /// departure of someone unknown shows nothing.
    pub fn apply_server_message(&mut self, msg: ServerMessage)
        ensures
            ({
                let pre = old(self)@;
                match msg@ {
                    ServerMessageView::Chat(c) => final(self)@ == (UiModel {
                        app: AppView {
                            chats: pre.app.chats.push(line_of_chat(pre.users, c)),
                            online_users: pre.app.online_users,
                            in_chat: pre.app.in_chat,
                        },
                        users: pre.users,
                    }),
                    ServerMessageView::JoinAccepted { history, participants } => {
                        let known = pre.users + participants;
                        &&& final(self)@.users == known
                        &&& final(self)@.app.in_chat == true
                        &&& final(self)@.app.online_users == pre.app.online_users + names_of(
                            participants,
                        )
                        &&& final(self)@.app.chats == pre.app.chats + lines_of_history(
                            known,
                            history,
                        )
                    },
                    ServerMessageView::UserJoined { uuid, username } => final(self)@ == (UiModel {
                        app: AppView {
                            chats: pre.app.chats.push(
                                ChatLineView {
                                    kind: LineKind::Joined,
                                    username: username,
                                    text: Seq::empty(),
                                    is_author: false,
                                },
                            ),
                            online_users: pre.app.online_users,
                            in_chat: pre.app.in_chat,
                        },
                        users: pre.users.push((uuid, username)),
                    }),
                    ServerMessageView::UserLeft { uuid } => match lookup_user(pre.users, uuid) {
                        Option::Some(name) => final(self)@ == (UiModel {
                            app: AppView {
                                chats: pre.app.chats.push(
                                    ChatLineView {
                                        kind: LineKind::Left,
                                        username: name,
                                        text: Seq::empty(),
                                        is_author: false,
                                    },
                                ),
                                online_users: pre.app.online_users,
                                in_chat: pre.app.in_chat,
                            },
                            users: remove_user(pre.users, uuid),
                        }),
                        Option::None => final(self)@ == pre,
                    },
                }
            }),
    {
        let ghost pre = self@;
        match msg {
            ServerMessage::Chat(c) => {
                let username = match self.find_user(&c.from) {
                    Some(n) => n,
                    None => String::new(),
                };
                let line = ChatLine {
                    kind: LineKind::Message,
                    username,
                    text: c.text,
                    is_author: false,
                };
                let ghost lv = line@;
                self.app.chats.push(line);
                proof {
                    assert(lines_view(self.app.chats@) =~= pre.app.chats.push(lv));
                    assert(lv =~= line_of_chat(pre.users, (ChatMessageView {
                        from: c.from,
                        text: lv.text,
                        timestamp: c.timestamp,
                    })));
                    assert(self@ =~= (UiModel {
                        app: AppView {
                            chats: pre.app.chats.push(line_of_chat(pre.users, (ChatMessageView {
                                from: c.from,
                                text: lv.text,
                                timestamp: c.timestamp,
                            }))),
                            online_users: pre.app.online_users,
                            in_chat: pre.app.in_chat,
                        },
                        users: pre.users,
                    }));
                }
            },
            ServerMessage::JoinAccepted { history, participants } => {
                let ghost rp = roster_view(participants@);
                let mut i: usize = 0;
                while i < participants.len()
                    invariant
                        i <= participants@.len(),
                        rp == roster_view(participants@),
                        roster_view(self.users@) == pre.users + rp.subrange(0, i as int),
                        names_view(self.app.online_users@) == pre.app.online_users + names_of(
                            rp.subrange(0, i as int),
                        ),
                        lines_view(self.app.chats@) == pre.app.chats,
                        self.app.in_chat == pre.app.in_chat,
                    decreases participants@.len() - i,
                {
                    let ghost users_pre = self.users@;
                    let ghost online_pre = self.app.online_users@;
                    let (uuid, name) = (participants[i].0, participants[i].1.clone());
                    let ghost nv = name@;
                    self.users.push((uuid, name));
                    self.app.online_users.push(participants[i].1.clone());
                    proof {
                        let pe = participants@[i as int];
                        assert(rp[i as int] == (pe.0, pe.1@));
                        assert(roster_view(self.users@) =~= roster_view(users_pre).push(
                            (uuid, nv),
                        ));
                        assert(rp.subrange(0, i + 1) =~= rp.subrange(0, i as int).push(
                            rp[i as int],
                        ));
                        assert(roster_view(self.users@) =~= pre.users + rp.subrange(0, i + 1));
                        assert(names_view(self.app.online_users@) =~= names_view(
                            online_pre,
                        ).push(nv));
                        assert(names_of(rp.subrange(0, i + 1)) =~= names_of(
                            rp.subrange(0, i as int),
                        ).push(nv));
                        assert(names_view(self.app.online_users@) =~= pre.app.online_users
                            + names_of(rp.subrange(0, i + 1)));
                    }
                    i = i + 1;
                }
                proof {
                    assert(rp.subrange(0, rp.len() as int) =~= rp);
                    assert(names_of(rp.subrange(0, rp.len() as int)) =~= names_of(rp));
                }
                let ghost known = pre.users + rp;
                let mut j: usize = 0;
                proof {
                    assert(roster_view(self.users@) =~= known);
                    assert(crate::protocol::chats_view(history@).subrange(0, 0)
                        =~= Seq::<ChatMessageView>::empty());
                    assert(lines_of_history(
                        known,
                        crate::protocol::chats_view(history@).subrange(0, 0),
                    ) =~= Seq::<ChatLineView>::empty());
                    assert(lines_view(self.app.chats@) =~= pre.app.chats + lines_of_history(
                        known,
                        crate::protocol::chats_view(history@).subrange(0, 0),
                    ));
                }
                while j < history.len()
                    invariant
                        j <= history@.len(),
                        known == pre.users + rp,
                        roster_view(self.users@) == known,
                        lines_view(self.app.chats@) == pre.app.chats + lines_of_history(
                            known,
                            crate::protocol::chats_view(history@).subrange(0, j as int),
                        ),
                        names_view(self.app.online_users@) == pre.app.online_users + names_of(rp),
                        self.app.in_chat == pre.app.in_chat,
                    decreases history@.len() - j,
                {
                    let ghost chats_pre = self.app.chats@;
                    let c = &history[j];
                    let username = match self.find_user(&c.from) {
                        Some(n) => n,
                        None => String::new(),
                    };
                    let line = ChatLine {
                        kind: LineKind::Message,
                        username,
                        text: c.text.clone(),
                        is_author: false,
                    };
                    let ghost lv = line@;
                    self.app.chats.push(line);
                    proof {
                        let cv = crate::protocol::chats_view(history@);
                        assert(cv[j as int] == history@[j as int]@);
                        assert(lv =~= line_of_chat(known, cv[j as int]));
                        assert(lines_view(self.app.chats@) =~= lines_view(chats_pre).push(lv));
                        assert(cv.subrange(0, j + 1) =~= cv.subrange(0, j as int).push(
                            cv[j as int],
                        ));
                        assert(lines_of_history(known, cv.subrange(0, j + 1)) =~= lines_of_history(
                            known,
                            cv.subrange(0, j as int),
                        ).push(line_of_chat(known, cv[j as int])));
                        assert(lines_view(self.app.chats@) =~= pre.app.chats + lines_of_history(
                            known,
                            cv.subrange(0, j + 1),
                        ));
                    }
                    j = j + 1;
                }
                self.app.in_chat = true;
                proof {
                    let cv = crate::protocol::chats_view(history@);
                    assert(cv.subrange(0, cv.len() as int) =~= cv);
                }
            },
            ServerMessage::UserJoined { uuid, username } => {
                let line = ChatLine {
                    kind: LineKind::Joined,
                    username: username.clone(),
                    text: String::new(),
                    is_author: false,
                };
                let ghost lv = line@;
                self.app.chats.push(line);
                self.users.push((uuid, username));
                proof {
                    assert(lines_view(self.app.chats@) =~= pre.app.chats.push(lv));
                    assert(roster_view(self.users@) =~= pre.users.push(
                        (uuid, self.users@.last().1@),
                    ));
                    assert(lv.text =~= Seq::<char>::empty());
                }
            },
            ServerMessage::UserLeft { uuid } => {
                let name = match self.find_user(&uuid) {
                    Some(n) => n,
                    None => {
                        return ;
                    },
                };
                let mut idx: usize = 0;
                while idx < self.users.len()
                    invariant
                        idx <= self.users@.len(),
                        pre == old(self)@,
                        self@ == pre,
                        msg@ == (ServerMessageView::UserLeft { uuid }),
                        lookup_user(pre.users, uuid) == Some(name@),
                        forall|k: int|
                            0 <= k < idx ==> (#[trigger] roster_view(self.users@)[k]).0 != uuid,
                    decreases self.users@.len() - idx,
                {
                    if self.users[idx].0 == uuid {
                        proof {
                            assert(roster_view(self.users@)[idx as int].0 == uuid);
                            lemma_remove_user_at(roster_view(self.users@), uuid, idx as int);
                        }
                        self.users.remove(idx);
                        let line = ChatLine {
                            kind: LineKind::Left,
                            username: name,
                            text: String::new(),
                            is_author: false,
                        };
                        let ghost lv = line@;
                        self.app.chats.push(line);
                        proof {
                            assert(roster_view(self.users@) =~= pre.users.remove(idx as int));
                            assert(lines_view(self.app.chats@) =~= pre.app.chats.push(lv));
                            assert(lv.text =~= Seq::<char>::empty());
                            assert(self@ =~= (UiModel {
                                app: AppView {
                                    chats: pre.app.chats.push(
                                        ChatLineView {
                                            kind: LineKind::Left,
                                            username: lv.username,
                                            text: Seq::empty(),
                                            is_author: false,
                                        },
                                    ),
                                    online_users: pre.app.online_users,
                                    in_chat: pre.app.in_chat,
                                },
                                users: remove_user(pre.users, uuid),
                            }));
                        }
                        return ;
                    }
                    proof {
                        assert(roster_view(self.users@)[idx as int].0 == self.users@[idx as int].0);
                    }
                    idx = idx + 1;
                }
                proof {
                    lemma_lookup_none(roster_view(self.users@), uuid);
                    assert(false);
                }
            },
        }
    }
}

} // verus!
