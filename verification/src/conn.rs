//! The per-connection command handler and lifecycle.
//!
//! Every client command is one variant of [`ClientMsg`]; handling one is a
//! pure step over the shared state, the connection's presence and its
//! duplicate-suppression list, producing zero or more [`HandlerResult`]s.
//! Each result is then wrapped into a broadcast envelope: replies travel to
//! this connection only, broadcasts to the whole room. The surrounding
//! send/receive loops live outside the library; what they decide with is
//! all here.

use vstd::prelude::*;

verus! {

use vstd::string::StringSliceAdditionalSpecFns;
use vstd::utf8::encode_utf8;

use crate::auth::{argon2_verifies, check_passwords, verify_session};
use crate::codec::{
    dec_bytes,
    esc_bytes,
    escape_bytes,
    msg_frame_bytes,
    msg_wf,
    serialize_message,
    str_eq,
    u64_to_dec,
};
use crate::hub::{BroadcastMsg, Target};
use crate::snowflake::Snowflake;
use crate::state::AppState;
use crate::store::{
    has_message_id,
    has_session_token,
    has_user_id,
    has_user_name,
    in_subtree,
    lemma_user_name_unique,
    msgs_sorted,
    recency_slice,
    Database,
    Message,
    Session,
    User,
};

/// Transient, connection-scoped identity: a fresh identifier per
/// connection, the bound session once authenticated, and a display name.
pub struct Presence {
    pub id: Snowflake,
    pub session: Option<Session>,
    pub name: String,
}

impl Clone for Presence {
    fn clone(&self) -> (r: Self)
        ensures
            r == *self,
    {
        Presence {
            id: self.id,
            session: match &self.session {
                Some(s) => Some(s.clone()),
                None => None,
            },
            name: self.name.clone(),
        }
    }
}

/// A presence fit for use: its own identifier was minted by the generator,
/// and so were the identifiers of any bound session.
pub open spec fn presence_wf(p: Presence) -> bool {
    &&& p.id.valid()
    &&& p.session is Some ==> p.session->0.id.valid() && p.session->0.user_id.valid()
}

/// A message to post: a [`Message`](crate::store::Message) before it has an
/// identifier or an author.
pub struct SendMessage {
    pub parent: Snowflake,
    pub content: String,
    pub dedup_id: Option<String>,
}

/// Credentials offered over the connection; the password is the plaintext.
pub struct PartialUser {
    pub name: String,
    pub password: String,
}

/// One client command.
pub enum ClientMsg {
    Authenticate(PartialUser),
    Pong,
    Message(SendMessage),
    LoadAllMessages,
    LoadMessages { before: Option<Snowflake>, amount: u8 },
    LoadChildren { parent: Snowflake, depth: Option<u8> },
    ChangeName(String),
}

/// One server event.
pub enum ServerMsg {
    Authenticate { success: bool, presence_id: String },
    NewMessage(Message),
    Error,
    Messages(Vec<Message>),
    Duplicate(String),
    Join(Presence),
    Leave(Presence),
    Update(Presence),
}

/// What handling one command hands back: a reply scoped to this connection,
/// or a broadcast to every connection in the room.
pub enum HandlerResult {
    Reply(ServerMsg),
    Broadcast(ServerMsg),
}

// ---------------------------------------------------------------------------
// Spec shapes of the replies.
// ---------------------------------------------------------------------------
/// An authentication reply carrying `success` and the decimal form of the
/// presence identifier.
pub open spec fn is_auth_reply(h: HandlerResult, success: bool, pid: Snowflake) -> bool {
    match h {
        HandlerResult::Reply(ServerMsg::Authenticate { success: s, presence_id: p }) => s == success
            && encode_utf8(p@) == dec_bytes(pid.id as nat),
        _ => false,
    }
}

/// A duplicate notice for the given deduplication key.
pub open spec fn is_duplicate_reply(h: HandlerResult, d: Seq<char>) -> bool {
    match h {
        HandlerResult::Reply(ServerMsg::Duplicate(s)) => s@ == d,
        _ => false,
    }
}

/// Whether some stored user carries these credentials.
pub open spec fn auth_ok(users: Seq<User>, name: Seq<char>, password: Seq<char>) -> bool {
    exists|u: User|
        #[trigger] users.contains(u) && u.name@ == name && argon2_verifies(password, u.password@)
}

/// The whole effect of an `Authenticate` command. The store is never
/// written. Unknown names and wrong passwords produce the same single
/// failure reply and leave the presence alone; on success the presence is
/// bound to a fresh session for the named user and renamed, a presence
/// update goes to the room and a success reply to this connection. When the
/// identifier generator cannot issue (a transient condition), the one reply
/// is a generic error.
pub open spec fn auth_outcome(
    pre: AppState,
    post: AppState,
    pre_p: Presence,
    post_p: Presence,
    name: Seq<char>,
    password: Seq<char>,
    r: Seq<HandlerResult>,
) -> bool {
    let users = pre.database.users@;
    &&& post.database == pre.database
    &&& (!has_user_name(users, name) ==> post_p == pre_p && post.allocator == pre.allocator
        && r.len() == 1 && is_auth_reply(r[0], false, pre_p.id))
    &&& ((has_user_name(users, name) && !auth_ok(users, name, password)) ==> post_p == pre_p
        && post.allocator == pre.allocator && r.len() == 1 && is_auth_reply(r[0], false, pre_p.id))
    &&& (auth_ok(users, name, password) ==> ((post_p == pre_p && r.len() == 1 && r[0]
        == HandlerResult::Reply(ServerMsg::Error)) || {
        &&& post_p.id == pre_p.id
        &&& post_p.name@ == name
        &&& post_p.session is Some
        &&& exists|u: User|
            #[trigger] users.contains(u) && u.name@ == name && argon2_verifies(
                password,
                u.password@,
            ) && post_p.session->0.user_id == u.id
        &&& r.len() == 2
        &&& r[0] == HandlerResult::Broadcast(ServerMsg::Update(post_p))
        &&& is_auth_reply(r[1], true, pre_p.id)
    }))
}

/// The view of a deduplication entry.
pub open spec fn dedup_view(o: Option<String>) -> Option<Seq<char>> {
    match o {
        Some(s) => Some(s@),
        None => None,
    }
}

/// Whether the key `d` was already seen on this connection.
pub open spec fn dedup_has(ids: Seq<Option<String>>, d: Seq<char>) -> bool {
    exists|k: int| 0 <= k < ids.len() && #[trigger] dedup_view(ids[k]) == Some(d)
}

/// LAW: once a post records its deduplication key, that key counts as seen,
/// so an identical resubmission takes the duplicate path and stores
/// nothing.
pub proof fn lemma_dedup_recorded(ids: Seq<Option<String>>, d: String)
    ensures
        dedup_has(ids.push(Some(d)), d@),
{
    let n = ids.len() as int;
    assert(dedup_view(ids.push(Some(d))[n]) == Some(d@));
}

/// The new message a successful post appends: authored by the bound user
/// (or the anonymous presence), stamped with the presence's name, placed
/// under the requested parent, with a fresh identifier.
pub open spec fn posted_message(
    pre_msgs: Seq<Message>,
    post_msgs: Seq<Message>,
    m: Message,
    presence: Presence,
    send: SendMessage,
) -> bool {
    &&& m.author == (match presence.session {
        Some(s) => s.user_id,
        None => presence.id,
    })
    &&& m.author_name@ == presence.name@
    &&& m.parent == send.parent
    &&& m.content@ == send.content@
    &&& m.id.valid()
    &&& !has_message_id(pre_msgs, m.id.id)
    &&& post_msgs.len() == pre_msgs.len() + 1
    &&& forall|x: Message| #[trigger] post_msgs.contains(x) <==> (pre_msgs.contains(x) || x == m)
}

/// The whole effect of a `Message` command. A repeated deduplication key
/// changes nothing and earns only a duplicate notice. Otherwise either a
/// transient refusal (generator or store) changes no stored data and earns
/// a generic error, or exactly one new message is stored, the key is
/// recorded, and the room hears about the message.
pub open spec fn post_outcome(
    pre: AppState,
    post: AppState,
    presence: Presence,
    send: SendMessage,
    pre_d: Seq<Option<String>>,
    post_d: Seq<Option<String>>,
    r: Seq<HandlerResult>,
) -> bool {
    &&& post.database.users == pre.database.users
    &&& post.database.sessions == pre.database.sessions
    &&& post.database.rooms == pre.database.rooms
    &&& if send.dedup_id is Some && dedup_has(pre_d, send.dedup_id->0@) {
        &&& post == pre
        &&& post_d == pre_d
        &&& r.len() == 1
        &&& is_duplicate_reply(r[0], send.dedup_id->0@)
    } else {
        ||| {
            &&& post.database == pre.database
            &&& post_d == pre_d
            &&& r.len() == 1
            &&& r[0] == HandlerResult::Reply(ServerMsg::Error)
        }
        ||| exists|m: Message|
            {
                &&& #[trigger] posted_message(
                    pre.database.messages@,
                    post.database.messages@,
                    m,
                    presence,
                    send,
                )
                &&& post_d == pre_d.push(send.dedup_id)
                &&& r.len() == 1
                &&& r[0] == HandlerResult::Broadcast(ServerMsg::NewMessage(m))
            }
    }
}

// ---------------------------------------------------------------------------
// The command handlers.
// ---------------------------------------------------------------------------
/// Verifies credentials and, on success, binds the presence to a fresh
/// session. See [`auth_outcome`] for the full contract.
pub fn authenticate(state: &mut AppState, user: PartialUser, presence: &mut Presence) -> (r: Vec<
    HandlerResult,
>)
    requires
        old(state).wf(),
        presence_wf(*old(presence)),
    ensures
        final(state).wf(),
        final(presence).id == old(presence).id,
        presence_wf(*final(presence)),
        results_wire_ready(r@),
        auth_outcome(
            *old(state),
            *final(state),
            *old(presence),
            *final(presence),
            user.name@,
            user.password@,
            r@,
        ),
{
    let ghost users = state.database.users@;
    let presence_id = presence.id.to_dec_string();
    let user_db = match state.database.get_user_by_name(user.name.as_str()) {
        Some(u) => u,
        None => {
            proof {
                if auth_ok(users, user.name@, user.password@) {
                    let u = choose|u: User|
                        #[trigger] users.contains(u) && u.name@ == user.name@ && argon2_verifies(
                            user.password@,
                            u.password@,
                        );
                    let k = choose|k: int| 0 <= k < users.len() && users[k] == u;
                    assert(users[k].name@ == user.name@);
                }
            }
            let mut r: Vec<HandlerResult> = Vec::new();
            r.push(
                HandlerResult::Reply(ServerMsg::Authenticate { success: false, presence_id }),
            );
            return r;
        },
    };
    if !check_passwords(user.password, user_db.password.clone()) {
        proof {
            if auth_ok(users, user.name@, user.password@) {
                let u = choose|u: User|
                    #[trigger] users.contains(u) && u.name@ == user.name@ && argon2_verifies(
                        user.password@,
                        u.password@,
                    );
                lemma_user_name_unique(users, u, user_db);
            }
        }
        let mut r: Vec<HandlerResult> = Vec::new();
        r.push(HandlerResult::Reply(ServerMsg::Authenticate { success: false, presence_id }));
        return r;
    }
    proof {
        assert(auth_ok(users, user.name@, user.password@)) by {
            assert(users.contains(user_db) && user_db.name@ == user.name@ && argon2_verifies(
                user.password@,
                user_db.password@,
            ));
        }
    }
    let id = match state.next_snowflake() {
        Ok(id) => id,
        Err(_) => {
            let mut r: Vec<HandlerResult> = Vec::new();
            r.push(HandlerResult::Reply(ServerMsg::Error));
            return r;
        },
    };
    let session = Session::generate(id, user_db.id);
    presence.session = Some(session);
    presence.name = user.name;
    let mut r: Vec<HandlerResult> = Vec::new();
    r.push(HandlerResult::Broadcast(ServerMsg::Update(presence.clone())));
    r.push(HandlerResult::Reply(ServerMsg::Authenticate { success: true, presence_id }));
    r
}

/// Whether this connection has already seen the deduplication key `d`.
fn dedup_contains(ids: &Vec<Option<String>>, d: &String) -> (r: bool)
    ensures
        r == dedup_has(ids@, d@),
{
    let mut k: usize = 0;
    while k < ids.len()
        invariant
            0 <= k <= ids@.len(),
            forall|i: int| 0 <= i < k ==> #[trigger] dedup_view(ids@[i]) != Some(d@),
        decreases ids@.len() - k,
    {
        match &ids[k] {
            Some(s) => {
                if str_eq(s.as_str(), d.as_str()) {
                    proof {
                        assert(dedup_view(ids@[k as int]) == Some(d@));
                    }
                    return true;
                }
            },
            None => {},
        }
        k = k + 1;
    }
    false
}

/// Posts a message, suppressing duplicate submissions by their client
/// supplied key. See [`post_outcome`] for the full contract.
pub fn message(
    state: &mut AppState,
    presence: &Presence,
    dedup_ids: &mut Vec<Option<String>>,
    send: SendMessage,
) -> (r: Vec<HandlerResult>)
    requires
        old(state).wf(),
        presence_wf(*presence),
    ensures
        final(state).wf(),
        results_wire_ready(r@),
        post_outcome(
            *old(state),
            *final(state),
            *presence,
            send,
            old(dedup_ids)@,
            final(dedup_ids)@,
            r@,
        ),
{
    let mut is_dup = false;
    match &send.dedup_id {
        Some(d) => {
            if dedup_contains(dedup_ids, d) {
                is_dup = true;
            }
        },
        None => {},
    }
    if is_dup {
        let d = match send.dedup_id {
            Some(d) => d,
            None => String::new(),
        };
        let mut r: Vec<HandlerResult> = Vec::new();
        r.push(HandlerResult::Reply(ServerMsg::Duplicate(d)));
        return r;
    }
    let id = match state.next_snowflake() {
        Ok(id) => id,
        Err(_) => {
            let mut r: Vec<HandlerResult> = Vec::new();
            r.push(HandlerResult::Reply(ServerMsg::Error));
            return r;
        },
    };
    let author = match &presence.session {
        Some(s) => s.user_id,
        None => presence.id,
    };
    let msg = Message {
        id,
        author,
        author_name: presence.name.clone(),
        parent: send.parent,
        content: send.content,
    };
    match state.database.add_message(&msg) {
        Ok(()) => {
            dedup_ids.push(send.dedup_id);
            let ghost m = msg;
            let mut r: Vec<HandlerResult> = Vec::new();
            r.push(HandlerResult::Broadcast(ServerMsg::NewMessage(msg)));
            proof {
                assert(posted_message(
                    old(state).database.messages@,
                    state.database.messages@,
                    m,
                    *presence,
                    send,
                ));
            }
            r
        },
        Err(_) => {
            let mut r: Vec<HandlerResult> = Vec::new();
            r.push(HandlerResult::Reply(ServerMsg::Error));
            r
        },
    }
}

/// The depth budget used when a query does not name one: deep enough for
/// any practical thread, still a hard bound on the recursion.
pub const DEFAULT_LOAD_DEPTH: u8 = 255;

/// Replies with the whole message tree of the room, to this connection
/// only.
pub fn load_all_messages(state: &AppState, room_id: &Snowflake) -> (r: Vec<HandlerResult>)
    requires
        state.wf(),
    ensures
        r@.len() == 1,
        results_wire_ready(r@),
        match r@[0] {
            HandlerResult::Reply(ServerMsg::Messages(v)) => {
                &&& msgs_sorted(v@)
                &&& v@.no_duplicates()
                &&& forall|m: Message|
                    #[trigger] v@.contains(m) <==> in_subtree(
                        state.database.messages@,
                        room_id.id,
                        DEFAULT_LOAD_DEPTH as int,
                        m,
                    )
            },
            _ => false,
        },
{
    let messages = state.database.get_children_of(Some(room_id), DEFAULT_LOAD_DEPTH);
    proof {
        assert forall|idx: int|
            0 <= idx < messages@.len() implies msg_wf(#[trigger] messages@[idx]) by {
            assert(messages@.contains(messages@[idx]));
            let s = state.database.messages@;
            let k0 = choose|k0: int| 0 <= k0 < s.len() && s[k0] == messages@[idx];
            assert((s[k0].id).valid() && s[k0].author.valid() && s[k0].parent.valid());
        }
    }
    let mut r: Vec<HandlerResult> = Vec::new();
    r.push(HandlerResult::Reply(ServerMsg::Messages(messages)));
    r
}

/// Replies with the most recent top-level messages strictly before a
/// bound, to this connection only.
pub fn load_messages(state: &AppState, before: Option<Snowflake>, amount: u8) -> (r: Vec<
    HandlerResult,
>)
    requires
        state.wf(),
    ensures
        r@.len() == 1,
        results_wire_ready(r@),
        match r@[0] {
            HandlerResult::Reply(ServerMsg::Messages(v)) => v@ == recency_slice(
                state.database.messages@,
                before,
                amount as int,
            ),
            _ => false,
        },
{
    let messages = state.database.get_some_messages(before, amount);
    proof {
        assert forall|idx: int|
            0 <= idx < messages@.len() implies msg_wf(#[trigger] messages@[idx]) by {
            let s = state.database.messages@;
            crate::store::lemma_recency_slice_members(s, before, amount as int, idx);
            let k0 = choose|k0: int| 0 <= k0 < s.len() && s[k0] == messages@[idx];
            assert((s[k0].id).valid() && s[k0].author.valid() && s[k0].parent.valid());
        }
    }
    let mut r: Vec<HandlerResult> = Vec::new();
    r.push(HandlerResult::Reply(ServerMsg::Messages(messages)));
    r
}

/// Replies with the subtree under a parent, bounded by the depth budget, to
/// this connection only.
pub fn load_children(state: &AppState, parent: &Snowflake, depth: u8) -> (r: Vec<HandlerResult>)
    requires
        state.wf(),
    ensures
        r@.len() == 1,
        results_wire_ready(r@),
        match r@[0] {
            HandlerResult::Reply(ServerMsg::Messages(v)) => {
                &&& msgs_sorted(v@)
                &&& v@.no_duplicates()
                &&& forall|m: Message|
                    #[trigger] v@.contains(m) <==> in_subtree(
                        state.database.messages@,
                        parent.id,
                        depth as int,
                        m,
                    )
                &&& depth == 0 ==> v@.len() == 0
            },
            _ => false,
        },
{
    let messages = state.database.get_children_of(Some(parent), depth);
    proof {
        assert forall|idx: int|
            0 <= idx < messages@.len() implies msg_wf(#[trigger] messages@[idx]) by {
            assert(messages@.contains(messages@[idx]));
            let s = state.database.messages@;
            let k0 = choose|k0: int| 0 <= k0 < s.len() && s[k0] == messages@[idx];
            assert((s[k0].id).valid() && s[k0].author.valid() && s[k0].parent.valid());
        }
    }
    let mut r: Vec<HandlerResult> = Vec::new();
    r.push(HandlerResult::Reply(ServerMsg::Messages(messages)));
    r
}

/// Renames the presence; nothing is stored, the room hears the update.
pub fn change_name(presence: &mut Presence, name: String) -> (r: Vec<HandlerResult>)
    requires
        old(presence).id.valid(),
    ensures
        results_wire_ready(r@),
        final(presence).id == old(presence).id,
        final(presence).session == old(presence).session,
        final(presence).name@ == name@,
        r@.len() == 1,
        r@[0] == HandlerResult::Broadcast(ServerMsg::Update(*final(presence))),
{
    presence.name = name;
    let mut r: Vec<HandlerResult> = Vec::new();
    r.push(HandlerResult::Broadcast(ServerMsg::Update(presence.clone())));
    r
}

/// Dispatches one client command. `Pong` produces nothing; every other
/// command produces the replies its handler's contract describes.
pub fn handle_message(
    msg: ClientMsg,
    presence: &mut Presence,
    dedup_ids: &mut Vec<Option<String>>,
    state: &mut AppState,
    room_id: &Snowflake,
) -> (r: Option<Vec<HandlerResult>>)
    requires
        old(state).wf(),
        presence_wf(*old(presence)),
    ensures
        final(state).wf(),
        final(presence).id == old(presence).id,
        presence_wf(*final(presence)),
        r is Some ==> results_wire_ready(r->0@),
        match msg {
            ClientMsg::Authenticate(user) => {
                &&& final(dedup_ids)@ == old(dedup_ids)@
                &&& r is Some
                &&& auth_outcome(
                    *old(state),
                    *final(state),
                    *old(presence),
                    *final(presence),
                    user.name@,
                    user.password@,
                    r->0@,
                )
            },
            ClientMsg::Pong => {
                &&& r is None
                &&& *final(state) == *old(state)
                &&& *final(presence) == *old(presence)
                &&& final(dedup_ids)@ == old(dedup_ids)@
            },
            ClientMsg::Message(send) => {
                &&& *final(presence) == *old(presence)
                &&& r is Some
                &&& post_outcome(
                    *old(state),
                    *final(state),
                    *old(presence),
                    send,
                    old(dedup_ids)@,
                    final(dedup_ids)@,
                    r->0@,
                )
            },
            ClientMsg::LoadAllMessages => {
                &&& *final(state) == *old(state)
                &&& *final(presence) == *old(presence)
                &&& final(dedup_ids)@ == old(dedup_ids)@
                &&& r is Some
                &&& r->0@.len() == 1
                &&& match r->0@[0] {
                    HandlerResult::Reply(ServerMsg::Messages(v)) => {
                        &&& msgs_sorted(v@)
                        &&& v@.no_duplicates()
                        &&& forall|m: Message|
                            #[trigger] v@.contains(m) <==> in_subtree(
                                old(state).database.messages@,
                                room_id.id,
                                DEFAULT_LOAD_DEPTH as int,
                                m,
                            )
                    },
                    _ => false,
                }
            },
            ClientMsg::LoadMessages { before, amount } => {
                &&& *final(state) == *old(state)
                &&& *final(presence) == *old(presence)
                &&& final(dedup_ids)@ == old(dedup_ids)@
                &&& r is Some
                &&& r->0@.len() == 1
                &&& match r->0@[0] {
                    HandlerResult::Reply(ServerMsg::Messages(v)) => v@ == recency_slice(
                        old(state).database.messages@,
                        before,
                        amount as int,
                    ),
                    _ => false,
                }
            },
            ClientMsg::LoadChildren { parent, depth } => {
                &&& *final(state) == *old(state)
                &&& *final(presence) == *old(presence)
                &&& final(dedup_ids)@ == old(dedup_ids)@
                &&& r is Some
                &&& r->0@.len() == 1
                &&& match r->0@[0] {
                    HandlerResult::Reply(ServerMsg::Messages(v)) => {
                        let d = (match depth {
                            Some(d) => d,
                            None => DEFAULT_LOAD_DEPTH,
                        });
                        &&& msgs_sorted(v@)
                        &&& v@.no_duplicates()
                        &&& forall|m: Message|
                            #[trigger] v@.contains(m) <==> in_subtree(
                                old(state).database.messages@,
                                parent.id,
                                d as int,
                                m,
                            )
                    },
                    _ => false,
                }
            },
            ClientMsg::ChangeName(name) => {
                &&& *final(state) == *old(state)
                &&& final(dedup_ids)@ == old(dedup_ids)@
                &&& final(presence).session == old(presence).session
                &&& final(presence).name@ == name@
                &&& r is Some
                &&& r->0@.len() == 1
                &&& r->0@[0] == HandlerResult::Broadcast(ServerMsg::Update(*final(presence)))
            },
        },
{
    match msg {
        ClientMsg::Authenticate(user) => Some(authenticate(state, user, presence)),
        ClientMsg::Pong => None,
        ClientMsg::Message(send) => Some(message(state, presence, dedup_ids, send)),
        ClientMsg::LoadAllMessages => Some(load_all_messages(state, room_id)),
        ClientMsg::LoadMessages { before, amount } => Some(load_messages(state, before, amount)),
        ClientMsg::LoadChildren { parent, depth } => {
            let d = match depth {
                Some(d) => d,
                None => DEFAULT_LOAD_DEPTH,
            };
            Some(load_children(state, &parent, d))
        },
        ClientMsg::ChangeName(name) => Some(change_name(presence, name)),
    }
}

// ---------------------------------------------------------------------------
// The outbound wire form of server events.
// ---------------------------------------------------------------------------
pub open spec fn bool_bytes(b: bool) -> Seq<u8> {
    if b {
        ("true").spec_bytes()
    } else {
        ("false").spec_bytes()
    }
}

/// The wire form of a presence: its identifier as a decimal string, its
/// display name, and whether it is authenticated. The bound session and its
/// token never travel to any client.
pub open spec fn presence_bytes(p: Presence) -> Seq<u8> {
    ("{\"id\":\"").spec_bytes() + dec_bytes(p.id.id as nat) + seq![0x22u8] + (
    ",\"name\":\"").spec_bytes() + esc_bytes(encode_utf8(p.name@)) + seq![0x22u8] + (
    ",\"authenticated\":").spec_bytes() + bool_bytes(p.session is Some) + seq![0x7du8]
}

/// The comma-separated wire forms of a list of messages.
pub open spec fn msgs_list_bytes(v: Seq<Message>) -> Seq<u8>
    decreases v.len(),
{
    if v.len() == 0 {
        Seq::empty()
    } else if v.len() == 1 {
        msg_frame_bytes(v[0])
    } else {
        msgs_list_bytes(v.drop_last()) + seq![0x2cu8] + msg_frame_bytes(v.last())
    }
}

/// The wire form of one server event: the variant as the outer tag, the
/// payload inside it.
pub open spec fn server_msg_bytes(m: ServerMsg) -> Seq<u8> {
    match m {
        ServerMsg::Authenticate { success, presence_id } => (
        "{\"Authenticate\":{\"success\":").spec_bytes() + bool_bytes(success) + (
        ",\"presence_id\":\"").spec_bytes() + esc_bytes(encode_utf8(presence_id@)) + seq![
            0x22u8,
            0x7du8,
            0x7du8,
        ],
        ServerMsg::NewMessage(msg) => ("{\"NewMessage\":").spec_bytes() + msg_frame_bytes(msg)
            + seq![0x7du8],
        ServerMsg::Error => ("\"Error\"").spec_bytes(),
        ServerMsg::Messages(v) => ("{\"Messages\":[").spec_bytes() + msgs_list_bytes(v@) + seq![
            0x5du8,
            0x7du8,
        ],
        ServerMsg::Duplicate(d) => ("{\"Duplicate\":\"").spec_bytes() + esc_bytes(
            encode_utf8(d@),
        ) + seq![0x22u8, 0x7du8],
        ServerMsg::Join(p) => ("{\"Join\":").spec_bytes() + presence_bytes(p) + seq![0x7du8],
        ServerMsg::Leave(p) => ("{\"Leave\":").spec_bytes() + presence_bytes(p) + seq![0x7du8],
        ServerMsg::Update(p) => ("{\"Update\":").spec_bytes() + presence_bytes(p) + seq![0x7du8],
    }
}

/// Every identifier inside the event is valid, so its wire form is defined.
pub open spec fn server_msg_wf(m: ServerMsg) -> bool {
    match m {
        ServerMsg::NewMessage(msg) => msg_wf(msg),
        ServerMsg::Messages(v) => forall|i: int| 0 <= i < v@.len() ==> msg_wf(#[trigger] v@[i]),
        ServerMsg::Join(p) => p.id.valid(),
        ServerMsg::Leave(p) => p.id.valid(),
        ServerMsg::Update(p) => p.id.valid(),
        _ => true,
    }
}

/// The event a handler result carries, whoever it is addressed to.
pub open spec fn content_of(h: HandlerResult) -> ServerMsg {
    match h {
        HandlerResult::Reply(m) => m,
        HandlerResult::Broadcast(m) => m,
    }
}

/// Every event among the results is fit for the wire, so the serializer's
/// precondition holds for each of them.
pub open spec fn results_wire_ready(rs: Seq<HandlerResult>) -> bool {
    forall|i: int| 0 <= i < rs.len() ==> server_msg_wf(content_of(#[trigger] rs[i]))
}

fn push_presence(out: &mut Vec<u8>, p: &Presence)
    requires
        p.id.valid(),
    ensures
        final(out)@ == old(out)@ + presence_bytes(*p),
{
    out.extend_from_slice("{\"id\":\"".as_bytes());
    let mut d = u64_to_dec(p.id.id() as u64);
    out.append(&mut d);
    out.push(0x22);
    out.extend_from_slice(",\"name\":\"".as_bytes());
    let mut e = escape_bytes(p.name.as_str().as_bytes());
    out.append(&mut e);
    out.push(0x22);
    out.extend_from_slice(",\"authenticated\":".as_bytes());
    if p.session.is_some() {
        out.extend_from_slice("true".as_bytes());
    } else {
        out.extend_from_slice("false".as_bytes());
    }
    out.push(0x7d);
    proof {
        assert(p.id.id as u64 as nat == p.id.id as nat);
        assert(final(out)@ =~= old(out)@ + presence_bytes(*p));
    }
}

/// Writes one server event in its wire form.
#[verifier::rlimit(60)]
pub fn serialize_server_msg(m: &ServerMsg) -> (r: Vec<u8>)
    requires
        server_msg_wf(*m),
    ensures
        r@ == server_msg_bytes(*m),
{
    let mut out: Vec<u8> = Vec::new();
    match m {
        ServerMsg::Authenticate { success, presence_id } => {
            out.extend_from_slice("{\"Authenticate\":{\"success\":".as_bytes());
            if *success {
                out.extend_from_slice("true".as_bytes());
            } else {
                out.extend_from_slice("false".as_bytes());
            }
            out.extend_from_slice(",\"presence_id\":\"".as_bytes());
            let mut e = escape_bytes(presence_id.as_str().as_bytes());
            out.append(&mut e);
            out.push(0x22);
            out.push(0x7d);
            out.push(0x7d);
            proof {
                assert(out@ =~= server_msg_bytes(*m));
            }
        },
        ServerMsg::NewMessage(msg) => {
            out.extend_from_slice("{\"NewMessage\":".as_bytes());
            let mut f = serialize_message(msg);
            out.append(&mut f);
            out.push(0x7d);
            proof {
                assert(out@ =~= server_msg_bytes(*m));
            }
        },
        ServerMsg::Error => {
            out.extend_from_slice("\"Error\"".as_bytes());
            proof {
                assert(out@ =~= server_msg_bytes(*m));
            }
        },
        ServerMsg::Messages(v) => {
            out.extend_from_slice("{\"Messages\":[".as_bytes());
            let ghost lead = out@;
            let mut i: usize = 0;
            while i < v.len()
                invariant
                    0 <= i <= v@.len(),
                    forall|k: int| 0 <= k < v@.len() ==> msg_wf(#[trigger] v@[k]),
                    out@ == lead + msgs_list_bytes(v@.subrange(0, i as int)),
                decreases v@.len() - i,
            {
                if i > 0 {
                    out.push(0x2c);
                }
                let mut f = serialize_message(&v[i]);
                out.append(&mut f);
                proof {
                    let pre = v@.subrange(0, i as int);
                    let now = v@.subrange(0, i as int + 1);
                    assert(now.drop_last() =~= pre);
                    assert(now.last() == v@[i as int]);
                    if i == 0 {
                        assert(msgs_list_bytes(now) == msg_frame_bytes(v@[0]));
                        assert(msgs_list_bytes(pre) =~= Seq::<u8>::empty());
                        assert(out@ =~= lead + msgs_list_bytes(now));
                    } else {
                        assert(msgs_list_bytes(now) == msgs_list_bytes(pre) + seq![0x2cu8]
                            + msg_frame_bytes(v@[i as int]));
                        assert(out@ =~= lead + msgs_list_bytes(now));
                    }
                }
                i = i + 1;
            }
            out.push(0x5d);
            out.push(0x7d);
            proof {
                assert(v@.subrange(0, v@.len() as int) =~= v@);
                assert(out@ =~= server_msg_bytes(*m));
            }
        },
        ServerMsg::Duplicate(d) => {
            out.extend_from_slice("{\"Duplicate\":\"".as_bytes());
            let mut e = escape_bytes(d.as_str().as_bytes());
            out.append(&mut e);
            out.push(0x22);
            out.push(0x7d);
            proof {
                assert(out@ =~= server_msg_bytes(*m));
            }
        },
        ServerMsg::Join(p) => {
            out.extend_from_slice("{\"Join\":".as_bytes());
            push_presence(&mut out, p);
            out.push(0x7d);
            proof {
                assert(out@ =~= server_msg_bytes(*m));
            }
        },
        ServerMsg::Leave(p) => {
            out.extend_from_slice("{\"Leave\":".as_bytes());
            push_presence(&mut out, p);
            out.push(0x7d);
            proof {
                assert(out@ =~= server_msg_bytes(*m));
            }
        },
        ServerMsg::Update(p) => {
            out.extend_from_slice("{\"Update\":".as_bytes());
            push_presence(&mut out, p);
            out.push(0x7d);
            proof {
                assert(out@ =~= server_msg_bytes(*m));
            }
        },
    }
    out
}

/// LAW: resubmitting a post with the deduplication key of an already
/// accepted post stores nothing: the second call leaves the state and the
/// key list exactly as they were and earns only a duplicate notice.
pub proof fn lemma_resubmission_stores_nothing(
    s0: AppState,
    s1: AppState,
    s2: AppState,
    p1: Presence,
    p2: Presence,
    send1: SendMessage,
    send2: SendMessage,
    d0: Seq<Option<String>>,
    d1: Seq<Option<String>>,
    d2: Seq<Option<String>>,
    r1: Seq<HandlerResult>,
    r2: Seq<HandlerResult>,
)
    requires
        send1.dedup_id is Some,
        dedup_view(send2.dedup_id) == dedup_view(send1.dedup_id),
        post_outcome(s0, s1, p1, send1, d0, d1, r1),
        r1.len() == 1 && r1[0] is Broadcast,
        post_outcome(s1, s2, p2, send2, d1, d2, r2),
    ensures
        s2 == s1,
        d2 == d1,
        r2.len() == 1,
        is_duplicate_reply(r2[0], send1.dedup_id->0@),
{
    if send1.dedup_id is Some && dedup_has(d0, send1.dedup_id->0@) {
        assert(is_duplicate_reply(r1[0], send1.dedup_id->0@));
        assert(r1[0] is Reply);
    } else {
        if d1 == d0 && r1.len() == 1 && r1[0] == HandlerResult::Reply(ServerMsg::Error) {
            assert(r1[0] is Reply);
        }
        let m = choose|m: Message|
            {
                &&& #[trigger] posted_message(s0.database.messages@, s1.database.messages@, m, p1, send1)
                &&& d1 == d0.push(send1.dedup_id)
                &&& r1.len() == 1
                &&& r1[0] == HandlerResult::Broadcast(ServerMsg::NewMessage(m))
            };
        let d = send1.dedup_id->0;
        lemma_dedup_recorded(d0, d);
        assert(d0.push(Some(d)) =~= d0.push(send1.dedup_id));
        assert(dedup_has(d1, send2.dedup_id->0@));
    }
}

/// Addresses one handler result: replies to this connection, broadcasts to
/// the whole room.
pub open spec fn envelope_of(id: i64, h: HandlerResult) -> BroadcastMsg<ServerMsg> {
    match h {
        HandlerResult::Reply(m) => BroadcastMsg { target: Target::One(id), content: m },
        HandlerResult::Broadcast(m) => BroadcastMsg { target: Target::All, content: m },
    }
}

/// Wraps one handler result into its envelope.
pub fn envelope(id: i64, h: HandlerResult) -> (b: BroadcastMsg<ServerMsg>)
    ensures
        b == envelope_of(id, h),
{
    match h {
        HandlerResult::Reply(m) => BroadcastMsg { target: Target::One(id), content: m },
        HandlerResult::Broadcast(m) => BroadcastMsg { target: Target::All, content: m },
    }
}

/// Wraps a handler's results into envelopes, in order.
pub fn envelope_all(id: i64, rs: Vec<HandlerResult>) -> (out: Vec<BroadcastMsg<ServerMsg>>)
    ensures
        out@.len() == rs@.len(),
        forall|i: int| 0 <= i < rs@.len() ==> out@[i] == envelope_of(id, #[trigger] rs@[i]),
{
    let ghost orig = rs@;
    let mut rs = rs;
    let mut out: Vec<BroadcastMsg<ServerMsg>> = Vec::new();
    while rs.len() > 0
        invariant
            out@.len() + rs@.len() == orig.len(),
            rs@ == orig.subrange(out@.len() as int, orig.len() as int),
            forall|i: int| 0 <= i < out@.len() ==> out@[i] == envelope_of(id, #[trigger] orig[i]),
        decreases rs@.len(),
    {
        let h = rs.remove(0);
        proof {
            assert(h == orig[out@.len() as int]);
            assert(rs@ =~= orig.subrange(out@.len() as int + 1, orig.len() as int));
        }
        out.push(envelope(id, h));
    }
    out
}

/// The presence a fresh connection starts with: bound to the session its
/// bearer token names, if any, carrying the owning user's display name, and
/// anonymous otherwise.
pub fn presence_for_connection(
    database: &Database,
    token: Option<i64>,
    presence_id: Snowflake,
) -> (r: Presence)
    requires
        database.wf(),
        presence_id.valid(),
    ensures
        presence_wf(r),
        r.id == presence_id,
        match token {
            Some(t) => {
                if has_session_token(database.sessions@, t) {
                    &&& r.session is Some
                    &&& r.session->0.token == t
                    &&& database.sessions@.contains(r.session->0)
                    &&& if has_user_id(database.users@, r.session->0.user_id.id) {
                        exists|k: int|
                            0 <= k < database.users@.len() && #[trigger] database.users@[k].id.id
                                == r.session->0.user_id.id && database.users@[k].name@ == r.name@
                    } else {
                        r.name@ == "Anonymous"@
                    }
                } else {
                    r.session is None && r.name@ == "Anonymous"@
                }
            },
            None => r.session is None && r.name@ == "Anonymous"@,
        },
{
    let session = match token {
        Some(t) => {
            match verify_session(t, database) {
                Ok(s) => Some(s),
                Err(_) => None,
            }
        },
        None => None,
    };
    let name = match &session {
        Some(s) => {
            match database.get_user_name(&s.user_id) {
                Some(n) => n,
                None => String::from_str("Anonymous"),
            }
        },
        None => String::from_str("Anonymous"),
    };
    proof {
        if session is Some {
            let s0 = session->0;
            assert(database.sessions@.contains(s0));
            let k0 = choose|k0: int|
                0 <= k0 < database.sessions@.len() && database.sessions@[k0] == s0;
            assert((database.sessions@[k0].id).valid() && database.sessions@[k0].user_id.valid());
        }
    }
    Presence { id: presence_id, session, name }
}

/// One connection's state: its identifier, its presence, the deduplication
/// keys it has seen, and whether it is still open.
pub struct Connection {
    pub id: i64,
    pub presence: Presence,
    pub dedup_ids: Vec<Option<String>>,
    pub open: bool,
}

impl Connection {
    /// On connect: the connection opens with an empty deduplication list
    /// and announces itself, first confirming authentication to itself when
    /// a session is already bound, then joining the room for everyone to
    /// see.
    pub fn open(id: i64, presence: Presence) -> (r: (Connection, Vec<BroadcastMsg<ServerMsg>>))
        requires
            presence_wf(presence),
        ensures
            forall|i: int| 0 <= i < r.1@.len() ==> server_msg_wf((#[trigger] r.1@[i]).content),
            r.0.id == id,
            r.0.presence == presence,
            r.0.dedup_ids@.len() == 0,
            r.0.open,
            ({
                let out = r.1@;
                let join = BroadcastMsg { target: Target::All, content: ServerMsg::Join(presence) };
                if presence.session is Some {
                    &&& out.len() == 2
                    &&& out[0].target == Target::One(id)
                    &&& match out[0].content {
                        ServerMsg::Authenticate { success, presence_id } => success && encode_utf8(
                            presence_id@,
                        ) == dec_bytes(presence.id.id as nat),
                        _ => false,
                    }
                    &&& out[1] == join
                } else {
                    out.len() == 1 && out[0] == join
                }
            }),
    {
        let mut out: Vec<BroadcastMsg<ServerMsg>> = Vec::new();
        if presence.session.is_some() {
            out.push(
                BroadcastMsg {
                    target: Target::One(id),
                    content: ServerMsg::Authenticate {
                        success: true,
                        presence_id: presence.id.to_dec_string(),
                    },
                },
            );
        }
        out.push(BroadcastMsg { target: Target::All, content: ServerMsg::Join(presence.clone()) });
        let conn = Connection { id, presence, dedup_ids: Vec::new(), open: true };
        (conn, out)
    }

    /// On disconnect: the connection closes for good and the room hears a
    /// leave event. This runs whichever loop ends first, so no connection
    /// disappears silently.
    pub fn close(&mut self) -> (out: Vec<BroadcastMsg<ServerMsg>>)
        ensures
            !final(self).open,
            final(self).id == old(self).id,
            final(self).presence == old(self).presence,
            final(self).dedup_ids == old(self).dedup_ids,
            out@.len() == 1,
            out@[0] == (BroadcastMsg {
                target: Target::All,
                content: ServerMsg::Leave(old(self).presence),
            }),
            old(self).presence.id.valid() ==> server_msg_wf(out@[0].content),
    {
        self.open = false;
        let mut out: Vec<BroadcastMsg<ServerMsg>> = Vec::new();
        out.push(
            BroadcastMsg { target: Target::All, content: ServerMsg::Leave(self.presence.clone()) },
        );
        out
    }
}

} // verus!
