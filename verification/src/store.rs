//! The data store: users, sessions, rooms and the threaded message tree.
//!
//! The store is a set of append-mostly in-memory tables with the invariants
//! the rest of the system relies on: user identifiers and display names are
//! unique, session identifiers and tokens are unique, room identifiers are
//! unique, and the message table is strictly sorted by identifier (which
//! orders messages by time). Every message carries the identifier of its
//! parent; a message whose parent is not itself a message sits at top level
//! under a room root.

use vstd::prelude::*;

verus! {

use crate::snowflake::Snowflake;

/// A registered user. The password field holds the salted hash, never the
/// plaintext.
pub struct User {
    pub id: Snowflake,
    pub name: String,
    pub password: String,
}

impl Clone for User {
    fn clone(&self) -> (r: Self)
        ensures
            r == *self,
    {
        User { id: self.id, name: self.name.clone(), password: self.password.clone() }
    }
}

/// A persisted (token -> user) binding created at authentication. The token
/// is the bearer credential; it must never travel back to a client except at
/// issuance.
pub struct Session {
    pub id: Snowflake,
    pub token: i64,
    pub user_id: Snowflake,
}

impl Clone for Session {
    fn clone(&self) -> (r: Self)
        ensures
            r == *self,
    {
        Session { id: self.id, token: self.token, user_id: self.user_id }
    }
}

impl Session {
    pub fn new(id: Snowflake, token: i64, user_id: Snowflake) -> (r: Session)
        ensures
            r == (Session { id, token, user_id }),
    {
        Session { id, token, user_id }
    }
}

/// A room; its identifier is the parent sentinel for top-level messages.
pub struct Room {
    pub id: Snowflake,
    pub name: String,
}

impl Clone for Room {
    fn clone(&self) -> (r: Self)
        ensures
            r == *self,
    {
        Room { id: self.id, name: self.name.clone() }
    }
}

/// A chat message. The author name is denormalised at write time so that
/// history keeps rendering a name even if the user is later renamed.
pub struct Message {
    pub id: Snowflake,
    pub author: Snowflake,
    pub author_name: String,
    pub parent: Snowflake,
    pub content: String,
}

impl Clone for Message {
    fn clone(&self) -> (r: Self)
        ensures
            r == *self,
    {
        Message {
            id: self.id,
            author: self.author,
            author_name: self.author_name.clone(),
            parent: self.parent,
            content: self.content.clone(),
        }
    }
}

impl PartialEq for Message {
    /// Messages compare by identifier: identifiers are globally unique, so
    /// two stored messages are the same message exactly when their
    /// identifiers coincide.
    fn eq(&self, other: &Self) -> (r: bool) {
        self.id.id == other.id.id
    }
}

impl vstd::std_specs::cmp::PartialEqSpecImpl for Message {
    open spec fn obeys_eq_spec() -> bool {
        true
    }

    open spec fn eq_spec(&self, other: &Self) -> bool {
        self.id.id == other.id.id
    }
}

/// How the store can refuse a write.
#[derive(Clone, Copy, PartialEq, Eq, Structural, Debug)]
pub enum StoreError {
    /// A uniqueness constraint would be violated.
    Constraint,
    /// The backing storage cannot be reached. The in-memory store never
    /// raises this; a persistent backing maps its failures onto it.
    Unavailable,
}

// ---------------------------------------------------------------------------
// Spec-level views of the tables.
// ---------------------------------------------------------------------------
pub open spec fn has_user_id(users: Seq<User>, id: i64) -> bool {
    exists|k: int| 0 <= k < users.len() && #[trigger] users[k].id.id == id
}

pub open spec fn has_user_name(users: Seq<User>, name: Seq<char>) -> bool {
    exists|k: int| 0 <= k < users.len() && #[trigger] users[k].name@ == name
}

pub open spec fn has_session_id(sessions: Seq<Session>, id: i64) -> bool {
    exists|k: int| 0 <= k < sessions.len() && #[trigger] sessions[k].id.id == id
}

pub open spec fn has_session_token(sessions: Seq<Session>, token: i64) -> bool {
    exists|k: int| 0 <= k < sessions.len() && #[trigger] sessions[k].token == token
}

pub open spec fn has_room_id(rooms: Seq<Room>, id: i64) -> bool {
    exists|k: int| 0 <= k < rooms.len() && #[trigger] rooms[k].id.id == id
}

pub open spec fn has_message_id(msgs: Seq<Message>, id: i64) -> bool {
    exists|k: int| 0 <= k < msgs.len() && #[trigger] msgs[k].id.id == id
}

/// Strictly ascending by identifier: time order, no duplicates.
pub open spec fn msgs_sorted(msgs: Seq<Message>) -> bool {
    forall|i: int, j: int|
        #![trigger msgs[i].id.id, msgs[j].id.id]
        0 <= i < j < msgs.len() ==> msgs[i].id.id < msgs[j].id.id
}

/// Whether a message sits at top level: its parent is not itself a message,
/// so the parent identifier names a room root.
pub open spec fn is_top_level(msgs: Seq<Message>, m: Message) -> bool {
    !has_message_id(msgs, m.parent.id)
}

/// What the recency queries select: top-level messages strictly before the
/// `before` bound (every top-level message when there is no bound).
pub open spec fn recent_pred(msgs: Seq<Message>, before: Option<Snowflake>) -> spec_fn(
    Message,
) -> bool {
    |m: Message| is_top_level(msgs, m) && (before is Some ==> m.id.id < before->0.id)
}

/// All selected messages, oldest first.
pub open spec fn recency_pool(msgs: Seq<Message>, before: Option<Snowflake>) -> Seq<Message> {
    msgs.filter(recent_pred(msgs, before))
}

/// The up-to-`amount` newest messages selected by [`recent_pred`], newest
/// first.
pub open spec fn recency_slice(
    msgs: Seq<Message>,
    before: Option<Snowflake>,
    amount: int,
) -> Seq<Message> {
    let pool = recency_pool(msgs, before);
    let k = if pool.len() <= amount {
        pool.len() as int
    } else {
        amount
    };
    pool.subrange(pool.len() - k, pool.len() as int).reverse()
}

/// Every message a recency query returns is a stored message.
pub proof fn lemma_recency_slice_members(
    msgs: Seq<Message>,
    before: Option<Snowflake>,
    amount: int,
    i: int,
)
    requires
        0 <= amount,
        0 <= i < recency_slice(msgs, before, amount).len(),
    ensures
        msgs.contains(recency_slice(msgs, before, amount)[i]),
{
    let pool = recency_pool(msgs, before);
    let k = if pool.len() <= amount {
        pool.len() as int
    } else {
        amount
    };
    let sub = pool.subrange(pool.len() - k, pool.len() as int);
    let slice = recency_slice(msgs, before, amount);
    assert(slice == sub.reverse());
    assert(sub.len() == k);
    assert(slice.len() == k);
    let j = k - 1 - i;
    assert(slice[i] == sub[j]);
    assert(sub[j] == pool[pool.len() - k + j]);
    assert(pool.contains(slice[i]));
    Seq::<Message>::lemma_filter_contains_rev(msgs, recent_pred(msgs, before), slice[i]);
}

/// Two stored users with the same display name are the same user, given the
/// store's name-uniqueness invariant.
pub proof fn lemma_user_name_unique(users: Seq<User>, a: User, b: User)
    requires
        forall|i: int, j: int|
            #![trigger users[i].name@, users[j].name@]
            0 <= i < j < users.len() ==> users[i].name@ != users[j].name@,
        users.contains(a),
        users.contains(b),
        a.name@ == b.name@,
    ensures
        a == b,
{
    let i = choose|i: int| 0 <= i < users.len() && users[i] == a;
    let j = choose|j: int| 0 <= j < users.len() && users[j] == b;
    if i < j {
        assert(users[i].name@ != users[j].name@);
    }
    if j < i {
        assert(users[j].name@ != users[i].name@);
    }
}

/// Insertion sort by identifier. The result holds exactly the messages of
/// the input (as sets) in non-strict identifier order, with the same length.
fn sort_by_id(v: Vec<Message>) -> (r: Vec<Message>)
    ensures
        forall|m: Message| #[trigger] r@.contains(m) <==> v@.contains(m),
        msgs_sorted_le(r@),
        r@.len() == v@.len(),
{
    let mut out: Vec<Message> = Vec::new();
    let mut i: usize = 0;
    while i < v.len()
        invariant
            0 <= i <= v@.len(),
            out@.len() == i,
            msgs_sorted_le(out@),
            forall|m: Message| #[trigger] out@.contains(m) <==> v@.subrange(0, i as int).contains(m),
        decreases v@.len() - i,
    {
        let x = v[i].clone();
        let mut k: usize = 0;
        while k < out.len() && out[k].id.id <= x.id.id
            invariant
                0 <= k <= out@.len(),
                forall|idx: int| 0 <= idx < k ==> #[trigger] out@[idx].id.id <= x.id.id,
            decreases out@.len() - k,
        {
            k = k + 1;
        }
        let ghost pre = out@;
        out.insert(k, x);
        proof {
            assert(out@ == pre.insert(k as int, x));
            assert forall|a: int, b: int|
                #![trigger out@[a].id.id, out@[b].id.id]
                0 <= a < b < out@.len() implies out@[a].id.id <= out@[b].id.id by {
                if a < k {
                    assert(out@[a] == pre[a]);
                } else if a == k {
                    assert(out@[a] == x);
                } else {
                    assert(out@[a] == pre[a - 1]);
                }
                if b < k {
                    assert(out@[b] == pre[b]);
                } else if b == k {
                    assert(out@[b] == x);
                } else {
                    assert(out@[b] == pre[b - 1]);
                }
                if b == k && 0 <= a < k {
                    assert(pre[a].id.id <= x.id.id);
                }
                if a == k && b > k {
                    assert(pre[k as int].id.id > x.id.id);
                    if b - 1 > k {
                        assert(pre[k as int].id.id <= pre[b - 1].id.id);
                    }
                }
                if a < k && b > k {
                    if a < b - 1 {
                        assert(pre[a].id.id <= pre[b - 1].id.id);
                    }
                }
            }
            let ghost snext = v@.subrange(0, i as int + 1);
            let ghost scur = v@.subrange(0, i as int);
            assert forall|m: Message| #[trigger] out@.contains(m) implies snext.contains(m) by {
                let i0 = choose|i0: int| 0 <= i0 < out@.len() && out@[i0] == m;
                if i0 < k {
                    assert(pre[i0] == m);
                    assert(pre.contains(m));
                    assert(scur.contains(m));
                    let i2 = choose|i2: int| 0 <= i2 < scur.len() && scur[i2] == m;
                    assert(snext[i2] == m);
                } else if i0 == k {
                    assert(m == x);
                    assert(snext[i as int] == v@[i as int]);
                } else {
                    assert(pre[i0 - 1] == m);
                    assert(pre.contains(m));
                    assert(scur.contains(m));
                    let i2 = choose|i2: int| 0 <= i2 < scur.len() && scur[i2] == m;
                    assert(snext[i2] == m);
                }
            }
            assert forall|m: Message| snext.contains(m) implies #[trigger] out@.contains(m) by {
                let i2 = choose|i2: int| 0 <= i2 < snext.len() && snext[i2] == m;
                if i2 == i {
                    assert(m == v@[i as int]);
                    assert(out@[k as int] == m);
                } else {
                    assert(scur[i2] == m);
                    assert(scur.contains(m));
                    assert(pre.contains(m));
                    let i1 = choose|i1: int| 0 <= i1 < pre.len() && pre[i1] == m;
                    if i1 < k {
                        assert(out@[i1] == m);
                    } else {
                        assert(out@[i1 + 1] == m);
                    }
                }
            }
        }
        i = i + 1;
    }
    proof {
        assert(v@.subrange(0, v@.len() as int) =~= v@);
    }
    out
}

proof fn lemma_filter_singleton<A>(x: A, pred: spec_fn(A) -> bool)
    ensures
        pred(x) ==> seq![x].filter(pred) == seq![x],
        !pred(x) ==> seq![x].filter(pred) == Seq::<A>::empty(),
{
    reveal_with_fuel(Seq::filter, 2);
    assert(seq![x].drop_last() =~= Seq::<A>::empty());
    assert(seq![x].last() == x);
    if pred(x) {
        assert(seq![x].filter(pred) =~= Seq::<A>::empty().push(x));
        assert(Seq::<A>::empty().push(x) =~= seq![x]);
    }
}

/// Every message names a parent from its past: the parent identifier —
/// a room root or an earlier message — is strictly below the message's own.
/// Identifiers are time ordered and a parent must already exist when a
/// message is appended, so this is the by-construction reading of the
/// forest invariant: parent chains strictly descend, no message is its own
/// ancestor.
pub open spec fn msgs_parents_before(msgs: Seq<Message>) -> bool {
    forall|k: int| 0 <= k < msgs.len() ==> #[trigger] msgs[k].parent.id < msgs[k].id.id
}

/// Non-strict ordering by identifier.
pub open spec fn msgs_sorted_le(msgs: Seq<Message>) -> bool {
    forall|i: int, j: int|
        #![trigger msgs[i].id.id, msgs[j].id.id]
        0 <= i < j < msgs.len() ==> msgs[i].id.id <= msgs[j].id.id
}

/// Whether stored message `m` lies in the subtree under `parent`, within
/// `depth` levels: at depth zero nothing does; otherwise `m` is a direct
/// child of `parent`, or lies within `depth - 1` levels under some direct
/// child.
pub open spec fn in_subtree(msgs: Seq<Message>, parent: i64, depth: int, m: Message) -> bool
    decreases depth,
{
    if depth <= 0 {
        false
    } else {
        msgs.contains(m) && (m.parent.id == parent || exists|c: Message|
            #[trigger] msgs.contains(c) && c.parent.id == parent && in_subtree(
                msgs,
                c.id.id,
                depth - 1,
                m,
            ))
    }
}

/// LAW: a stored message with parent `p` is in the subtree under `p` at any
/// depth of at least one.
pub proof fn lemma_child_in_subtree(msgs: Seq<Message>, m: Message, parent: i64, depth: int)
    requires
        msgs.contains(m),
        m.parent.id == parent,
        depth >= 1,
    ensures
        in_subtree(msgs, parent, depth, m),
{
}

/// LAW: after appending message `m`, the subtree under its parent includes
/// `m` at every depth of at least one. `post` is the message table that an
/// append of `m` leaves behind, as `add_message` describes it.
pub proof fn lemma_appended_message_listed(
    pre: Seq<Message>,
    post: Seq<Message>,
    m: Message,
    depth: int,
)
    requires
        forall|x: Message| #[trigger] post.contains(x) <==> (pre.contains(x) || x == m),
        depth >= 1,
    ensures
        in_subtree(post, m.parent.id, depth, m),
{
    assert(post.contains(m));
    lemma_child_in_subtree(post, m, m.parent.id, depth);
}

/// Two stored messages with the same identifier are the same message.
proof fn lemma_message_id_unique(msgs: Seq<Message>, a: Message, b: Message)
    requires
        msgs_sorted(msgs),
        msgs.contains(a),
        msgs.contains(b),
        a.id.id == b.id.id,
    ensures
        a == b,
{
    let i = choose|i: int| 0 <= i < msgs.len() && msgs[i] == a;
    let j = choose|j: int| 0 <= j < msgs.len() && msgs[j] == b;
    if i < j {
        assert(msgs[i].id.id < msgs[j].id.id);
    }
    if j < i {
        assert(msgs[j].id.id < msgs[i].id.id);
    }
}

/// Parent chains descend: everything in the subtree under `parent` has its
/// own identifier, and even its parent's identifier, above `parent`.
proof fn lemma_subtree_above(msgs: Seq<Message>, parent: i64, depth: int, m: Message)
    requires
        msgs_sorted(msgs),
        msgs_parents_before(msgs),
        in_subtree(msgs, parent, depth, m),
    ensures
        m.id.id > parent,
        m.parent.id >= parent,
    decreases depth,
{
    let i = choose|i: int| 0 <= i < msgs.len() && msgs[i] == m;
    assert(msgs[i].parent.id < msgs[i].id.id);
    if m.parent.id == parent {
    } else {
        let c = choose|c: Message|
            #[trigger] msgs.contains(c) && c.parent.id == parent && in_subtree(
                msgs,
                c.id.id,
                depth - 1,
                m,
            );
        let j = choose|j: int| 0 <= j < msgs.len() && msgs[j] == c;
        assert(msgs[j].parent.id < msgs[j].id.id);
        lemma_subtree_above(msgs, c.id.id, depth - 1, m);
    }
}

/// A direct child's position is final: whatever lies inside the subtree of
/// a direct child of `parent` is not itself a direct child of `parent`.
proof fn lemma_direct_child_not_deeper(
    msgs: Seq<Message>,
    parent: i64,
    c: Message,
    depth: int,
    m: Message,
)
    requires
        msgs_sorted(msgs),
        msgs_parents_before(msgs),
        msgs.contains(c),
        c.parent.id == parent,
        in_subtree(msgs, c.id.id, depth, m),
    ensures
        m.parent.id != parent,
{
    lemma_subtree_above(msgs, c.id.id, depth, m);
    let j = choose|j: int| 0 <= j < msgs.len() && msgs[j] == c;
    assert(msgs[j].parent.id < msgs[j].id.id);
}

/// A member of a subtree that is not a direct child has its parent in the
/// subtree too, one level up.
proof fn lemma_subtree_step_up(msgs: Seq<Message>, q: i64, depth: int, m: Message)
    requires
        msgs_sorted(msgs),
        msgs_parents_before(msgs),
        in_subtree(msgs, q, depth, m),
        m.parent.id != q,
    ensures
        exists|x: Message|
            #[trigger] msgs.contains(x) && x.id.id == m.parent.id && in_subtree(
                msgs,
                q,
                depth - 1,
                x,
            ),
    decreases depth,
{
    let c = choose|c: Message|
        #[trigger] msgs.contains(c) && c.parent.id == q && in_subtree(
            msgs,
            c.id.id,
            depth - 1,
            m,
        );
    if m.parent.id == c.id.id {
        assert(in_subtree(msgs, q, depth - 1, c));
        assert(msgs.contains(c) && c.id.id == m.parent.id && in_subtree(msgs, q, depth - 1, c));
    } else {
        lemma_subtree_step_up(msgs, c.id.id, depth - 1, m);
        let x = choose|x: Message|
            #[trigger] msgs.contains(x) && x.id.id == m.parent.id && in_subtree(
                msgs,
                c.id.id,
                depth - 2,
                x,
            );
        assert(in_subtree(msgs, q, depth - 1, x));
        assert(msgs.contains(x) && x.id.id == m.parent.id && in_subtree(msgs, q, depth - 1, x));
    }
}

/// Subtrees of two distinct direct children never share a message: with
/// descending parent chains, the chain from a message up to `parent` is
/// unique, so it cannot pass through two different children.
proof fn lemma_sibling_subtrees_disjoint(
    msgs: Seq<Message>,
    parent: i64,
    c1: Message,
    c2: Message,
    d1: int,
    d2: int,
    m: Message,
)
    requires
        msgs_sorted(msgs),
        msgs_parents_before(msgs),
        msgs.contains(c1),
        msgs.contains(c2),
        c1.parent.id == parent,
        c2.parent.id == parent,
        c1.id.id != c2.id.id,
        in_subtree(msgs, c1.id.id, d1, m),
    ensures
        !in_subtree(msgs, c2.id.id, d2, m),
    decreases d1 + d2 + 1,
{
    if in_subtree(msgs, c2.id.id, d2, m) {
        if m.parent.id == c1.id.id {
            lemma_subtree_step_up(msgs, c2.id.id, d2, m);
            let x = choose|x: Message|
                #[trigger] msgs.contains(x) && x.id.id == m.parent.id && in_subtree(
                    msgs,
                    c2.id.id,
                    d2 - 1,
                    x,
                );
            lemma_message_id_unique(msgs, x, c1);
            lemma_direct_child_not_deeper(msgs, parent, c2, d2 - 1, c1);
            assert(false);
        } else if m.parent.id == c2.id.id {
            lemma_subtree_step_up(msgs, c1.id.id, d1, m);
            let x = choose|x: Message|
                #[trigger] msgs.contains(x) && x.id.id == m.parent.id && in_subtree(
                    msgs,
                    c1.id.id,
                    d1 - 1,
                    x,
                );
            lemma_message_id_unique(msgs, x, c2);
            lemma_direct_child_not_deeper(msgs, parent, c1, d1 - 1, c2);
            assert(false);
        } else {
            lemma_subtree_step_up(msgs, c1.id.id, d1, m);
            lemma_subtree_step_up(msgs, c2.id.id, d2, m);
            let x1 = choose|x: Message|
                #[trigger] msgs.contains(x) && x.id.id == m.parent.id && in_subtree(
                    msgs,
                    c1.id.id,
                    d1 - 1,
                    x,
                );
            let x2 = choose|x: Message|
                #[trigger] msgs.contains(x) && x.id.id == m.parent.id && in_subtree(
                    msgs,
                    c2.id.id,
                    d2 - 1,
                    x,
                );
            lemma_message_id_unique(msgs, x1, x2);
            lemma_sibling_subtrees_disjoint(msgs, parent, c1, c2, d1 - 1, d2 - 1, x1);
            assert(false);
        }
    }
}

/// The store.
pub struct Database {
    pub users: Vec<User>,
    pub sessions: Vec<Session>,
    pub rooms: Vec<Room>,
    pub messages: Vec<Message>,
}

impl Database {
    /// The invariants every operation preserves.
    pub open spec fn wf(self) -> bool {
        &&& forall|i: int, j: int|
            #![trigger self.users@[i].id.id, self.users@[j].id.id]
            0 <= i < j < self.users@.len() ==> self.users@[i].id.id != self.users@[j].id.id
        &&& forall|i: int, j: int|
            #![trigger self.users@[i].name@, self.users@[j].name@]
            0 <= i < j < self.users@.len() ==> self.users@[i].name@ != self.users@[j].name@
        &&& forall|i: int, j: int|
            #![trigger self.sessions@[i].id.id, self.sessions@[j].id.id]
            0 <= i < j < self.sessions@.len() ==> self.sessions@[i].id.id != self.sessions@[j].id.id
        &&& forall|i: int, j: int|
            #![trigger self.sessions@[i].token, self.sessions@[j].token]
            0 <= i < j < self.sessions@.len() ==> self.sessions@[i].token != self.sessions@[j].token
        &&& forall|i: int, j: int|
            #![trigger self.rooms@[i].id.id, self.rooms@[j].id.id]
            0 <= i < j < self.rooms@.len() ==> self.rooms@[i].id.id != self.rooms@[j].id.id
        &&& msgs_sorted(self.messages@)
        &&& msgs_parents_before(self.messages@)
        &&& forall|k: int| 0 <= k < self.users@.len() ==> (#[trigger] self.users@[k].id).valid()
        &&& forall|k: int|
            0 <= k < self.sessions@.len() ==> (#[trigger] self.sessions@[k].id).valid()
                && self.sessions@[k].user_id.valid()
        &&& forall|k: int|
            0 <= k < self.messages@.len() ==> (#[trigger] self.messages@[k].id).valid()
                && self.messages@[k].author.valid() && self.messages@[k].parent.valid()
    }

    /// An empty store.
    pub fn build() -> (r: Database)
        ensures
            r.wf(),
            r.users@.len() == 0,
            r.sessions@.len() == 0,
            r.rooms@.len() == 0,
            r.messages@.len() == 0,
    {
        Database { users: Vec::new(), sessions: Vec::new(), rooms: Vec::new(), messages: Vec::new() }
    }

    // -----------------------------------------------------------------------
    // Users.
    // -----------------------------------------------------------------------
    /// Inserts a user; fails exactly when the identifier or the display name
    /// is already taken.
    pub fn add_user(&mut self, user: User) -> (r: Result<(), StoreError>)
        requires
            old(self).wf(),
        ensures
            final(self).wf(),
            r is Ok <==> (user.id.valid() && !has_user_id(old(self).users@, user.id.id)
                && !has_user_name(old(self).users@, user.name@)),
            r is Ok ==> final(self).users@ == old(self).users@.push(user),
            r is Err ==> *final(self) == *old(self) && r->Err_0 == StoreError::Constraint,
            final(self).sessions == old(self).sessions,
            final(self).rooms == old(self).rooms,
            final(self).messages == old(self).messages,
    {
        if user.id.id < 0 {
            return Err(StoreError::Constraint);
        }
        let mut k: usize = 0;
        while k < self.users.len()
            invariant
                0 <= k <= self.users@.len(),
                forall|i: int| 0 <= i < k ==> #[trigger] self.users@[i].id.id != user.id.id,
                forall|i: int| 0 <= i < k ==> #[trigger] self.users@[i].name@ != user.name@,
        decreases self.users@.len() - k,
        {
            if self.users[k].id.id == user.id.id || self.users[k].name == user.name {
                return Err(StoreError::Constraint);
            }
            k = k + 1;
        }
        proof {
            assert(!has_user_id(self.users@, user.id.id));
            assert(!has_user_name(self.users@, user.name@));
        }
        let ghost u = user;
        let ghost pre = self.users@;
        self.users.push(user);
        proof {
            assert forall|i: int, j: int|
                #![trigger self.users@[i].id.id, self.users@[j].id.id]
                0 <= i < j < self.users@.len() implies self.users@[i].id.id
                != self.users@[j].id.id by {
                assert(self.users@[i] == pre[i]);
                if j == pre.len() {
                    assert(self.users@[j] == u);
                    assert(pre[i].id.id != u.id.id) by {
                        if pre[i].id.id == u.id.id {
                            assert(has_user_id(pre, u.id.id));
                        }
                    }
                } else {
                    assert(self.users@[j] == pre[j]);
                    assert(old(self).users@[i].id.id != old(self).users@[j].id.id);
                }
            }
            assert forall|i: int, j: int|
                #![trigger self.users@[i].name@, self.users@[j].name@]
                0 <= i < j < self.users@.len() implies self.users@[i].name@
                != self.users@[j].name@ by {
                assert(self.users@[i] == pre[i]);
                if j == pre.len() {
                    assert(self.users@[j] == u);
                    assert(pre[i].name@ != u.name@) by {
                        if pre[i].name@ == u.name@ {
                            assert(has_user_name(pre, u.name@));
                        }
                    }
                } else {
                    assert(self.users@[j] == pre[j]);
                }
            }
        }
        Ok(())
    }

    /// Looks a user up by identifier.
    pub fn get_user(&self, id: &Snowflake) -> (r: Option<User>)
        ensures
            r is Some <==> has_user_id(self.users@, id.id),
            r is Some ==> self.users@.contains(r->0) && r->0.id == *id,
    {
        let mut k: usize = 0;
        while k < self.users.len()
            invariant
                0 <= k <= self.users@.len(),
                forall|i: int| 0 <= i < k ==> #[trigger] self.users@[i].id.id != id.id,
            decreases self.users@.len() - k,
        {
            if self.users[k].id.id == id.id {
                return Some(self.users[k].clone());
            }
            k = k + 1;
        }
        None
    }

    /// Looks a user up by display name.
    pub fn get_user_by_name(&self, name: &str) -> (r: Option<User>)
        ensures
            r is Some <==> has_user_name(self.users@, name@),
            r is Some ==> self.users@.contains(r->0) && r->0.name@ == name@,
    {
        let mut k: usize = 0;
        while k < self.users.len()
            invariant
                0 <= k <= self.users@.len(),
                forall|i: int| 0 <= i < k ==> #[trigger] self.users@[i].name@ != name@,
            decreases self.users@.len() - k,
        {
            if crate::codec::str_eq(self.users[k].name.as_str(), name) {
                return Some(self.users[k].clone());
            }
            k = k + 1;
        }
        None
    }

    /// Looks up only the display name of a user.
    pub fn get_user_name(&self, id: &Snowflake) -> (r: Option<String>)
        ensures
            r is Some <==> has_user_id(self.users@, id.id),
            r is Some ==> exists|k: int|
                0 <= k < self.users@.len() && #[trigger] self.users@[k].id.id == id.id
                    && self.users@[k].name@ == r->0@,
    {
        let mut k: usize = 0;
        while k < self.users.len()
            invariant
                0 <= k <= self.users@.len(),
                forall|i: int| 0 <= i < k ==> #[trigger] self.users@[i].id.id != id.id,
            decreases self.users@.len() - k,
        {
            if self.users[k].id.id == id.id {
                return Some(self.users[k].name.clone());
            }
            k = k + 1;
        }
        None
    }

    // -----------------------------------------------------------------------
    // Sessions.
    // -----------------------------------------------------------------------
    /// Inserts a session; fails exactly when the identifier or the token is
    /// already taken (tokens are unique at the storage layer).
    pub fn add_session(&mut self, session: Session) -> (r: Result<(), StoreError>)
        requires
            old(self).wf(),
        ensures
            final(self).wf(),
            r is Ok <==> (session.id.valid() && session.user_id.valid() && !has_session_id(
                old(self).sessions@,
                session.id.id,
            ) && !has_session_token(old(self).sessions@, session.token)),
            r is Ok ==> final(self).sessions@ == old(self).sessions@.push(session),
            r is Err ==> *final(self) == *old(self) && r->Err_0 == StoreError::Constraint,
            final(self).users == old(self).users,
            final(self).rooms == old(self).rooms,
            final(self).messages == old(self).messages,
    {
        if session.id.id < 0 || session.user_id.id < 0 {
            return Err(StoreError::Constraint);
        }
        let mut k: usize = 0;
        while k < self.sessions.len()
            invariant
                0 <= k <= self.sessions@.len(),
                forall|i: int| 0 <= i < k ==> #[trigger] self.sessions@[i].id.id != session.id.id,
                forall|i: int| 0 <= i < k ==> #[trigger] self.sessions@[i].token != session.token,
            decreases self.sessions@.len() - k,
        {
            if self.sessions[k].id.id == session.id.id || self.sessions[k].token == session.token {
                return Err(StoreError::Constraint);
            }
            k = k + 1;
        }
        proof {
            assert(!has_session_id(self.sessions@, session.id.id));
            assert(!has_session_token(self.sessions@, session.token));
        }
        let ghost s = session;
        let ghost pre = self.sessions@;
        self.sessions.push(session);
        proof {
            assert forall|i: int, j: int|
                #![trigger self.sessions@[i].id.id, self.sessions@[j].id.id]
                0 <= i < j < self.sessions@.len() implies self.sessions@[i].id.id
                != self.sessions@[j].id.id by {
                assert(self.sessions@[i] == pre[i]);
                if j == pre.len() {
                    assert(self.sessions@[j] == s);
                    assert(pre[i].id.id != s.id.id) by {
                        if pre[i].id.id == s.id.id {
                            assert(has_session_id(pre, s.id.id));
                        }
                    }
                } else {
                    assert(self.sessions@[j] == pre[j]);
                }
            }
            assert forall|i: int, j: int|
                #![trigger self.sessions@[i].token, self.sessions@[j].token]
                0 <= i < j < self.sessions@.len() implies self.sessions@[i].token
                != self.sessions@[j].token by {
                assert(self.sessions@[i] == pre[i]);
                if j == pre.len() {
                    assert(self.sessions@[j] == s);
                    assert(pre[i].token != s.token) by {
                        if pre[i].token == s.token {
                            assert(has_session_token(pre, s.token));
                        }
                    }
                } else {
                    assert(self.sessions@[j] == pre[j]);
                }
            }
        }
        Ok(())
    }

    /// Resolves a bearer token to its session, if any.
    pub fn get_session_from_token(&self, token: &i64) -> (r: Option<Session>)
        ensures
            r is Some <==> has_session_token(self.sessions@, *token),
            r is Some ==> self.sessions@.contains(r->0) && r->0.token == *token,
    {
        let mut k: usize = 0;
        while k < self.sessions.len()
            invariant
                0 <= k <= self.sessions@.len(),
                forall|i: int| 0 <= i < k ==> #[trigger] self.sessions@[i].token != *token,
            decreases self.sessions@.len() - k,
        {
            if self.sessions[k].token == *token {
                return Some(self.sessions[k].clone());
            }
            k = k + 1;
        }
        None
    }

    /// Removes the session with the given identifier; a missing identifier
    /// is a quiet no-op, as deleting an absent row is.
    pub fn delete_session(&mut self, id: &Snowflake)
        requires
            old(self).wf(),
        ensures
            final(self).wf(),
            !has_session_id(old(self).sessions@, id.id) ==> *final(self) == *old(self),
            has_session_id(old(self).sessions@, id.id) ==> exists|k: int|
                0 <= k < old(self).sessions@.len() && #[trigger] old(self).sessions@[k].id.id
                    == id.id && final(self).sessions@ == old(self).sessions@.remove(k),
            !has_session_id(final(self).sessions@, id.id),
            final(self).users == old(self).users,
            final(self).rooms == old(self).rooms,
            final(self).messages == old(self).messages,
    {
        let mut k: usize = 0;
        while k < self.sessions.len()
            invariant
                0 <= k <= self.sessions@.len(),
                *self == *old(self),
                forall|i: int| 0 <= i < k ==> #[trigger] self.sessions@[i].id.id != id.id,
            decreases self.sessions@.len() - k,
        {
            if self.sessions[k].id.id == id.id {
                let ghost pre = self.sessions@;
                self.sessions.remove(k);
                proof {
                    assert(self.sessions@ =~= pre.subrange(0, k as int) + pre.subrange(
                        k as int + 1,
                        pre.len() as int,
                    ));
                    assert forall|i: int, j: int|
                        #![trigger self.sessions@[i].id.id, self.sessions@[j].id.id]
                        0 <= i < j < self.sessions@.len() implies self.sessions@[i].id.id
                        != self.sessions@[j].id.id by {
                        let i0 = if i < k { i } else { i + 1 };
                        let j0 = if j < k { j } else { j + 1 };
                        assert(self.sessions@[i] == pre[i0]);
                        assert(self.sessions@[j] == pre[j0]);
                    }
                    assert forall|i: int, j: int|
                        #![trigger self.sessions@[i].token, self.sessions@[j].token]
                        0 <= i < j < self.sessions@.len() implies self.sessions@[i].token
                        != self.sessions@[j].token by {
                        let i0 = if i < k { i } else { i + 1 };
                        let j0 = if j < k { j } else { j + 1 };
                        assert(self.sessions@[i] == pre[i0]);
                        assert(self.sessions@[j] == pre[j0]);
                    }
                    assert forall|i: int|
                        0 <= i < self.sessions@.len() implies #[trigger] self.sessions@[i].id.id
                        != id.id by {
                        let i0 = if i < k { i } else { i + 1 };
                        assert(self.sessions@[i] == pre[i0]);
                        if i0 > k {
                            assert(pre[k as int].id.id == id.id);
                        }
                    }
                    assert forall|i: int|
                        0 <= i < self.sessions@.len() implies (#[trigger] self.sessions@[i].id).valid()
                            && self.sessions@[i].user_id.valid() by {
                        let i0 = if i < k { i } else { i + 1 };
                        assert(self.sessions@[i] == pre[i0]);
                        assert((pre[i0].id).valid() && pre[i0].user_id.valid());
                    }
                }
                return ;
            }
            k = k + 1;
        }
    }

    // -----------------------------------------------------------------------
    // Rooms.
    // -----------------------------------------------------------------------
    /// Inserts a room; fails exactly when the identifier is already taken.
    pub fn add_room(&mut self, room: &Room) -> (r: Result<(), StoreError>)
        requires
            old(self).wf(),
        ensures
            final(self).wf(),
            r is Ok <==> !has_room_id(old(self).rooms@, room.id.id),
            r is Ok ==> final(self).rooms@ == old(self).rooms@.push(*room),
            r is Err ==> *final(self) == *old(self) && r->Err_0 == StoreError::Constraint,
            final(self).users == old(self).users,
            final(self).sessions == old(self).sessions,
            final(self).messages == old(self).messages,
    {
        let mut k: usize = 0;
        while k < self.rooms.len()
            invariant
                0 <= k <= self.rooms@.len(),
                forall|i: int| 0 <= i < k ==> #[trigger] self.rooms@[i].id.id != room.id.id,
            decreases self.rooms@.len() - k,
        {
            if self.rooms[k].id.id == room.id.id {
                return Err(StoreError::Constraint);
            }
            k = k + 1;
        }
        proof {
            assert(!has_room_id(self.rooms@, room.id.id));
        }
        let ghost pre = self.rooms@;
        self.rooms.push(room.clone());
        proof {
            assert forall|i: int, j: int|
                #![trigger self.rooms@[i].id.id, self.rooms@[j].id.id]
                0 <= i < j < self.rooms@.len() implies self.rooms@[i].id.id
                != self.rooms@[j].id.id by {
                assert(self.rooms@[i] == pre[i]);
                if j == pre.len() {
                    assert(self.rooms@[j] == *room);
                    assert(pre[i].id.id != room.id.id) by {
                        if pre[i].id.id == room.id.id {
                            assert(has_room_id(pre, room.id.id));
                        }
                    }
                } else {
                    assert(self.rooms@[j] == pre[j]);
                }
            }
        }
        Ok(())
    }

    // -----------------------------------------------------------------------
    // Messages.
    // -----------------------------------------------------------------------
    /// Whether any stored message carries the given identifier.
    pub fn contains_message_id(&self, id: i64) -> (r: bool)
        ensures
            r == has_message_id(self.messages@, id),
    {
        let mut k: usize = 0;
        while k < self.messages.len()
            invariant
                0 <= k <= self.messages@.len(),
                forall|i: int| 0 <= i < k ==> #[trigger] self.messages@[i].id.id != id,
            decreases self.messages@.len() - k,
        {
            if self.messages[k].id.id == id {
                return true;
            }
            k = k + 1;
        }
        false
    }

    /// Appends a message, keeping the table sorted by identifier; fails
    /// exactly when the identifier is already taken (a duplicate identifier
    /// would mean the generator misbehaved), or when the named parent does
    /// not come from the past — every legitimate parent, a room root or an
    /// earlier message, carries a strictly smaller identifier, so a parent
    /// at or above the message's own identifier cannot already exist.
    pub fn add_message(&mut self, message: &Message) -> (r: Result<(), StoreError>)
        requires
            old(self).wf(),
        ensures
            final(self).wf(),
            r is Ok <==> (message.author.valid() && message.parent.valid()
                && !has_message_id(old(self).messages@, message.id.id) && message.parent.id
                < message.id.id),
            r is Ok ==> final(self).messages@.len() == old(self).messages@.len() + 1,
            r is Ok ==> forall|x: Message|
                #[trigger] final(self).messages@.contains(x) <==> (old(
                    self,
                ).messages@.contains(x) || x == *message),
            r is Err ==> *final(self) == *old(self) && r->Err_0 == StoreError::Constraint,
            final(self).users == old(self).users,
            final(self).sessions == old(self).sessions,
            final(self).rooms == old(self).rooms,
    {
        if message.parent.id < 0 || message.author.id < 0 || message.parent.id >= message.id.id {
            return Err(StoreError::Constraint);
        }
        let mut k: usize = 0;
        while k < self.messages.len() && self.messages[k].id.id < message.id.id
            invariant
                0 <= k <= self.messages@.len(),
                forall|i: int| 0 <= i < k ==> #[trigger] self.messages@[i].id.id < message.id.id,
            decreases self.messages@.len() - k,
        {
            k = k + 1;
        }
        if k < self.messages.len() && self.messages[k].id.id == message.id.id {
            return Err(StoreError::Constraint);
        }
        proof {
            assert forall|i: int|
                0 <= i < self.messages@.len() implies #[trigger] self.messages@[i].id.id
                != message.id.id by {
                if i >= k {
                    if k < self.messages@.len() {
                        assert(self.messages@[k as int].id.id != message.id.id);
                        if i > k {
                            assert(self.messages@[k as int].id.id < self.messages@[i].id.id);
                        }
                    }
                }
            }
            assert(!has_message_id(self.messages@, message.id.id));
        }
        let ghost pre = self.messages@;
        let ghost m = *message;
        self.messages.insert(k, message.clone());
        proof {
            assert(self.messages@ == pre.insert(k as int, m));
            assert(self.messages@ =~= pre.subrange(0, k as int) + seq![m] + pre.subrange(
                k as int,
                pre.len() as int,
            ));
            assert forall|i: int, j: int|
                #![trigger self.messages@[i].id.id, self.messages@[j].id.id]
                0 <= i < j < self.messages@.len() implies self.messages@[i].id.id
                < self.messages@[j].id.id by {
                let s = self.messages@;
                if i < k {
                    assert(s[i] == pre[i]);
                } else if i == k {
                    assert(s[i] == m);
                } else {
                    assert(s[i] == pre[i - 1]);
                }
                if j < k {
                    assert(s[j] == pre[j]);
                } else if j == k {
                    assert(s[j] == m);
                } else {
                    assert(s[j] == pre[j - 1]);
                }
                if j == k && 0 <= i < k {
                    assert(pre[i].id.id < m.id.id);
                }
                if i == k && j > k {
                    assert(pre[j - 1].id.id != m.id.id) by {
                        if pre[j - 1].id.id == m.id.id {
                            assert(has_message_id(pre, m.id.id));
                        }
                    }
                    if j - 1 > k {
                        assert(pre[k as int].id.id < pre[j - 1].id.id);
                    }
                    assert(m.id.id < pre[j - 1].id.id);
                }
            }
            assert forall|i: int|
                0 <= i < self.messages@.len() implies #[trigger] self.messages@[i].parent.id
                < self.messages@[i].id.id by {
                if i < k {
                    assert(self.messages@[i] == pre[i]);
                } else if i == k {
                    assert(self.messages@[i] == m);
                } else {
                    assert(self.messages@[i] == pre[i - 1]);
                }
            }
            assert forall|x: Message| #[trigger]
                self.messages@.contains(x) implies (pre.contains(x) || x == m) by {
                let idx = choose|idx: int|
                    0 <= idx < self.messages@.len() && self.messages@[idx] == x;
                if idx < k {
                    assert(pre[idx] == x);
                    assert(pre.contains(x));
                } else if idx > k {
                    assert(pre[idx - 1] == x);
                    assert(pre.contains(x));
                }
            }
            assert forall|x: Message| pre.contains(x) implies #[trigger]
                self.messages@.contains(x) by {
                let idx = choose|idx: int| 0 <= idx < pre.len() && pre[idx] == x;
                if idx < k {
                    assert(self.messages@[idx] == x);
                } else {
                    assert(self.messages@[idx + 1] == x);
                }
            }
            assert(self.messages@[k as int] == m);
            assert(self.messages@.contains(m));
        }
        Ok(())
    }

    /// All messages, most recent first.
    pub fn get_messages(&self) -> (r: Vec<Message>)
        ensures
            r@ == self.messages@.reverse(),
    {
        let n = self.messages.len();
        let mut r: Vec<Message> = Vec::new();
        let mut k: usize = 0;
        while k < n
            invariant
                0 <= k <= n == self.messages@.len(),
                r@.len() == k,
                forall|j: int| 0 <= j < k ==> r@[j] == self.messages@[n - 1 - j],
            decreases n - k,
        {
            r.push(self.messages[n - 1 - k].clone());
            k = k + 1;
        }
        proof {
            assert(r@ =~= self.messages@.reverse());
        }
        r
    }

    /// The most recent top-level messages, newest first. Caps the count at
    /// 100.
    pub fn get_recent_messages(&self) -> (r: Vec<Message>)
        ensures
            r@ == recency_slice(self.messages@, None, 100),
    {
        self.get_some_messages(None, 100)
    }

    /// Up to `amount` top-level messages strictly before the `before`
    /// identifier (no bound when `before` is `None`), newest first. Only
    /// top-level messages are returned; subtrees are fetched separately.
    pub fn get_some_messages(&self, before: Option<Snowflake>, amount: u8) -> (r: Vec<Message>)
        ensures
            r@ == recency_slice(self.messages@, before, amount as int),
    {
        let ghost pred = recent_pred(self.messages@, before);
        let mut r: Vec<Message> = Vec::new();
        let mut i = self.messages.len();
        proof {
            assert(self.messages@.subrange(i as int, self.messages@.len() as int) =~= Seq::<
                Message,
            >::empty());
            assert(Seq::<Message>::empty().filter(pred) =~= Seq::<Message>::empty()) by {
                reveal_with_fuel(Seq::filter, 1);
            }
        }
        while i > 0 && r.len() < amount as usize
            invariant
                0 <= i <= self.messages@.len(),
                r@.len() <= amount,
                r@ == self.messages@.subrange(i as int, self.messages@.len() as int).filter(
                    pred,
                ).reverse(),
                pred == recent_pred(self.messages@, before),
            decreases i,
        {
            i = i - 1;
            let top = !self.contains_message_id(self.messages[i].parent.id);
            let keep = top && (match before {
                Some(b) => self.messages[i].id.id < b.id,
                None => true,
            });
            let ghost old_r = r@;
            if keep {
                r.push(self.messages[i].clone());
            }
            proof {
                let all = self.messages@;
                let x = all[i as int];
                assert(keep == pred(x));
                let suffix = all.subrange(i as int + 1, all.len() as int);
                let here = all.subrange(i as int, all.len() as int);
                assert(here =~= seq![x] + suffix);
                Seq::<Message>::filter_distributes_over_add(seq![x], suffix, pred);
                lemma_filter_singleton(x, pred);
                if keep {
                    assert(here.filter(pred) =~= seq![x] + suffix.filter(pred));
                    assert(here.filter(pred).reverse() =~= suffix.filter(pred).reverse().push(x));
                    assert(r@ =~= old_r.push(x));
                } else {
                    assert(here.filter(pred) =~= suffix.filter(pred));
                }
            }
        }
        proof {
            let all = self.messages@;
            let pool = recency_pool(all, before);
            let suffix = all.subrange(i as int, all.len() as int);
            let prefix = all.subrange(0, i as int);
            assert(all =~= prefix + suffix);
            Seq::<Message>::filter_distributes_over_add(prefix, suffix, pred);
            assert(pool =~= prefix.filter(pred) + suffix.filter(pred));
            let g = suffix.filter(pred);
            assert(g =~= pool.subrange(pool.len() - g.len(), pool.len() as int));
            if i == 0 {
                assert(prefix =~= Seq::<Message>::empty());
                assert(prefix.filter(pred) =~= Seq::<Message>::empty()) by {
                    reveal_with_fuel(Seq::filter, 1);
                }
                assert(pool =~= g);
            }
            assert(r@ == recency_slice(all, before, amount as int));
        }
        r
    }

    /// The messages within `depth` levels under `message`, strictly sorted
    /// by identifier ascending: each reachable message exactly once, never
    /// more than exist. Depth zero selects nothing, whatever children
    /// exist; `None` names no parent and selects nothing.
    pub fn get_children_of(&self, message: Option<&Snowflake>, depth: u8) -> (r: Vec<Message>)
        requires
            self.wf(),
        ensures
            forall|m: Message|
                #[trigger] r@.contains(m) <==> (message is Some && in_subtree(
                    self.messages@,
                    message->0.id,
                    depth as int,
                    m,
                )),
            msgs_sorted(r@),
            r@.no_duplicates(),
            depth == 0 ==> r@.len() == 0,
            message is None ==> r@.len() == 0,
    {
        match message {
            None => Vec::new(),
            Some(p) => self.children_rec(p.id, depth),
        }
    }

    /// Level-by-level expansion: direct children first, then each child's
    /// subtree with the depth budget decremented, then one sort. Because
    /// parent chains strictly descend, the chain from a message up to
    /// `parent` is unique, so no message is collected twice: the result is
    /// strictly sorted.
    fn children_rec(&self, parent: i64, depth: u8) -> (r: Vec<Message>)
        requires
            self.wf(),
        ensures
            forall|m: Message|
                #[trigger] r@.contains(m) <==> in_subtree(self.messages@, parent, depth as int, m),
            msgs_sorted(r@),
            r@.no_duplicates(),
            depth == 0 ==> r@.len() == 0,
        decreases depth,
    {
        if depth == 0 {
            return Vec::new();
        }
        let ghost all = self.messages@;
        let ghost cpred = |m: Message| m.parent.id == parent;
        let mut acc: Vec<Message> = Vec::new();
        let mut k: usize = 0;
        proof {
            assert(all.subrange(0, 0) =~= Seq::<Message>::empty());
            assert(Seq::<Message>::empty().filter(cpred) =~= Seq::<Message>::empty()) by {
                reveal_with_fuel(Seq::filter, 1);
            }
        }
        while k < self.messages.len()
            invariant
                0 <= k <= all.len(),
                all == self.messages@,
                acc@ == all.subrange(0, k as int).filter(cpred),
                msgs_sorted(acc@),
            decreases all.len() - k,
        {
            let ghost accold = acc@;
            if self.messages[k].parent.id == parent {
                acc.push(self.messages[k].clone());
            }
            proof {
                let x = all[k as int];
                assert(all.subrange(0, k as int + 1) =~= all.subrange(0, k as int) + seq![x]);
                Seq::<Message>::filter_distributes_over_add(
                    all.subrange(0, k as int),
                    seq![x],
                    cpred,
                );
                lemma_filter_singleton(x, cpred);
                if x.parent.id == parent {
                    assert(acc@ =~= accold + seq![x]);
                    assert forall|a: int, b: int|
                        #![trigger acc@[a].id.id, acc@[b].id.id]
                        0 <= a < b < acc@.len() implies acc@[a].id.id < acc@[b].id.id by {
                        if b == acc@.len() - 1 {
                            assert(acc@[a] == accold[a]);
                            assert(acc@[b] == x);
                            assert(all.subrange(0, k as int).filter(cpred).contains(accold[a]));
                            Seq::<Message>::lemma_filter_contains_rev(
                                all.subrange(0, k as int),
                                cpred,
                                accold[a],
                            );
                            let i0 = choose|i0: int|
                                0 <= i0 < all.subrange(0, k as int).len() && all.subrange(
                                    0,
                                    k as int,
                                )[i0] == accold[a];
                            assert(all[i0] == accold[a]);
                            assert(all[i0].id.id < all[k as int].id.id);
                        } else {
                            assert(acc@[a] == accold[a] && acc@[b] == accold[b]);
                        }
                    }
                } else {
                    assert(acc@ =~= accold + Seq::<Message>::empty());
                }
            }
            k = k + 1;
        }
        proof {
            assert(all.subrange(0, all.len() as int) =~= all);
        }
        let ghost kids = acc@;
        proof {
            assert forall|a: int, b: int|
                #![trigger acc@[a], acc@[b]]
                0 <= a < acc@.len() && 0 <= b < acc@.len() && a != b implies acc@[a]
                != acc@[b] by {
                if a < b {
                    assert(acc@[a].id.id < acc@[b].id.id);
                } else {
                    assert(acc@[b].id.id < acc@[a].id.id);
                }
            }
            assert(acc@.no_duplicates());
        }
        let dcount = acc.len();
        let mut j: usize = 0;
        while j < dcount
            invariant
                self.wf(),
                all == self.messages@,
                0 <= j <= dcount <= acc@.len(),
                kids == all.filter(cpred),
                msgs_sorted(kids),
                dcount == kids.len(),
                acc@.subrange(0, dcount as int) == kids,
                acc@.no_duplicates(),
                1 <= depth <= 255,
                forall|m: Message|
                    #[trigger] acc@.contains(m) <==> (kids.contains(m) || exists|idx: int|
                        0 <= idx < j && in_subtree(all, kids[idx].id.id, depth - 1, m)),
            decreases dcount - j,
        {
            let cid = acc[j].id.id;
            proof {
                assert(acc@[j as int] == acc@.subrange(0, dcount as int)[j as int]);
                assert(cid == kids[j as int].id.id);
            }
            let mut sub = self.children_rec(cid, depth - 1);
            let ghost accold = acc@;
            let ghost subv = sub@;
            acc.append(&mut sub);
            proof {
                assert(acc@ =~= accold + subv);
                assert(acc@.subrange(0, dcount as int) =~= accold.subrange(0, dcount as int));
                assert forall|m: Message| #[trigger]
                    acc@.contains(m) implies (kids.contains(m) || exists|idx: int|
                    0 <= idx < j + 1 && in_subtree(all, kids[idx].id.id, depth - 1, m)) by {
                    let i0 = choose|i0: int| 0 <= i0 < acc@.len() && acc@[i0] == m;
                    if i0 < accold.len() {
                        assert(accold[i0] == m);
                        assert(accold.contains(m));
                    } else {
                        assert(subv[i0 - accold.len()] == m);
                        assert(subv.contains(m));
                        assert(in_subtree(all, kids[j as int].id.id, depth - 1, m));
                    }
                }
                assert forall|m: Message|
                    (kids.contains(m) || exists|idx: int|
                        0 <= idx < j + 1 && in_subtree(all, kids[idx].id.id, depth - 1, m)) implies #[trigger]
                    acc@.contains(m) by {
                    if kids.contains(m) || exists|idx: int|
                        0 <= idx < j && in_subtree(all, kids[idx].id.id, depth - 1, m) {
                        assert(accold.contains(m));
                        let i0 = choose|i0: int| 0 <= i0 < accold.len() && accold[i0] == m;
                        assert(acc@[i0] == m);
                    } else {
                        let idx = choose|idx: int|
                            0 <= idx < j + 1 && in_subtree(all, kids[idx].id.id, depth - 1, m);
                        assert(idx == j);
                        assert(subv.contains(m));
                        let i0 = choose|i0: int| 0 <= i0 < subv.len() && subv[i0] == m;
                        assert(acc@[accold.len() + i0] == m);
                    }
                }
                // the child's subtree brings nothing already collected
                let c2 = kids[j as int];
                assert(all.filter(cpred).contains(c2));
                Seq::<Message>::lemma_filter_pred(all, cpred, j as int);
                Seq::<Message>::lemma_filter_contains_rev(all, cpred, c2);
                assert(all.contains(c2) && c2.parent.id == parent);
                assert forall|a: int, b: int|
                    #![trigger acc@[a], acc@[b]]
                    0 <= a < acc@.len() && 0 <= b < acc@.len() && a != b implies acc@[a]
                    != acc@[b] by {
                    let lo = if a < b { a } else { b };
                    let hi = if a < b { b } else { a };
                    if hi < accold.len() {
                        assert(acc@[lo] == accold[lo] && acc@[hi] == accold[hi]);
                    } else if lo >= accold.len() {
                        assert(acc@[lo] == subv[lo - accold.len()]);
                        assert(acc@[hi] == subv[hi - accold.len()]);
                        assert(subv[lo - accold.len()].id.id != subv[hi - accold.len()].id.id);
                    } else {
                        // one old element, one fresh subtree element
                        let m = acc@[lo];
                        assert(acc@[lo] == accold[lo]);
                        assert(acc@[hi] == subv[hi - accold.len()]);
                        if acc@[lo] == acc@[hi] {
                            assert(subv.contains(m));
                            assert(in_subtree(all, c2.id.id, depth - 1, m));
                            assert(accold.contains(m));
                            if kids.contains(m) {
                                let k0 = choose|k0: int| 0 <= k0 < kids.len() && kids[k0] == m;
                                Seq::<Message>::lemma_filter_pred(all, cpred, k0);
                                assert(m.parent.id == parent);
                                lemma_direct_child_not_deeper(all, parent, c2, depth - 1, m);
                                assert(false);
                            } else {
                                let idx = choose|idx: int|
                                    0 <= idx < j && in_subtree(
                                        all,
                                        kids[idx].id.id,
                                        depth - 1,
                                        m,
                                    );
                                let c1 = kids[idx];
                                assert(all.filter(cpred).contains(c1));
                                Seq::<Message>::lemma_filter_pred(all, cpred, idx);
                                Seq::<Message>::lemma_filter_contains_rev(all, cpred, c1);
                                assert(all.contains(c1) && c1.parent.id == parent);
                                assert(c1.id.id != c2.id.id);
                                lemma_sibling_subtrees_disjoint(
                                    all,
                                    parent,
                                    c1,
                                    c2,
                                    depth - 1,
                                    depth - 1,
                                    m,
                                );
                                assert(false);
                            }
                        }
                    }
                }
                assert(acc@.no_duplicates());
            }
            j = j + 1;
        }
        let ghost accv = acc@;
        let r = sort_by_id(acc);
        proof {
            accv.unique_seq_to_set();
            assert(r@.to_set() =~= accv.to_set());
            assert(r@.to_set().len() == r@.len());
            r@.lemma_no_dup_set_cardinality();
            assert forall|m: Message| #[trigger]
                r@.contains(m) implies in_subtree(all, parent, depth as int, m) by {
                if kids.contains(m) {
                    let i0 = choose|i0: int| 0 <= i0 < kids.len() && kids[i0] == m;
                    Seq::<Message>::lemma_filter_pred(all, cpred, i0);
                    Seq::<Message>::lemma_filter_contains_rev(all, cpred, m);
                    assert(all.contains(m) && m.parent.id == parent);
                } else {
                    let idx = choose|idx: int|
                        0 <= idx < dcount && in_subtree(all, kids[idx].id.id, depth - 1, m);
                    let c = kids[idx];
                    Seq::<Message>::lemma_filter_pred(all, cpred, idx);
                    Seq::<Message>::lemma_filter_contains_rev(all, cpred, c);
                    assert(kids.contains(c));
                    assert(all.contains(c) && c.parent.id == parent);
                    assert(in_subtree(all, c.id.id, depth - 1, m));
                    assert(all.contains(m)) by {
                        assert(in_subtree(all, c.id.id, depth - 1, m));
                    }
                }
            }
            assert forall|m: Message| in_subtree(all, parent, depth as int, m) implies #[trigger]
                r@.contains(m) by {
                assert(all.contains(m));
                if m.parent.id == parent {
                    let i0 = choose|i0: int| 0 <= i0 < all.len() && all[i0] == m;
                    Seq::<Message>::lemma_filter_contains(all, cpred, i0);
                    assert(kids.contains(m));
                } else {
                    let c = choose|c: Message|
                        #[trigger] all.contains(c) && c.parent.id == parent && in_subtree(
                            all,
                            c.id.id,
                            depth as int - 1,
                            m,
                        );
                    let i0 = choose|i0: int| 0 <= i0 < all.len() && all[i0] == c;
                    Seq::<Message>::lemma_filter_contains(all, cpred, i0);
                    assert(kids.contains(c));
                    let idx = choose|idx: int| 0 <= idx < kids.len() && kids[idx] == c;
                    assert(in_subtree(all, kids[idx].id.id, depth - 1, m));
                }
            }
            // equal identifiers would name the same stored message, which
            // no_duplicates rules out: the order is strict
            assert forall|a: int, b: int|
                #![trigger r@[a].id.id, r@[b].id.id]
                0 <= a < b < r@.len() implies r@[a].id.id < r@[b].id.id by {
                assert(r@[a].id.id <= r@[b].id.id);
                if r@[a].id.id == r@[b].id.id {
                    let ma = r@[a];
                    let mb = r@[b];
                    assert(r@.contains(ma));
                    assert(r@.contains(mb));
                    assert(in_subtree(all, parent, depth as int, ma));
                    assert(in_subtree(all, parent, depth as int, mb));
                    assert(all.contains(ma) && all.contains(mb));
                    lemma_message_id_unique(all, ma, mb);
                    assert(false);
                }
            }
        }
        r
    }

    /// Looks a room up by identifier.
    pub fn get_room(&self, id: &Snowflake) -> (r: Option<Room>)
        ensures
            r is Some <==> has_room_id(self.rooms@, id.id),
            r is Some ==> self.rooms@.contains(r->0) && r->0.id == *id,
    {
        let mut k: usize = 0;
        while k < self.rooms.len()
            invariant
                0 <= k <= self.rooms@.len(),
                forall|i: int| 0 <= i < k ==> #[trigger] self.rooms@[i].id.id != id.id,
            decreases self.rooms@.len() - k,
        {
            if self.rooms[k].id.id == id.id {
                return Some(self.rooms[k].clone());
            }
            k = k + 1;
        }
        None
    }
}

} // verus!
