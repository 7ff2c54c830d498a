use golem::auth::{
    hash_password, login, register, verify_session, CreateUser, Error, LoginError, PartialUser,
    RegisterError,
};
use golem::codec::{parse_message, serialize_message};
use golem::conn::{
    envelope_all, handle_message, presence_for_connection, ClientMsg, Connection, HandlerResult,
    Presence, SendMessage, ServerMsg,
};
use golem::hub::{should_deliver, Target};
use golem::snowflake::Snowflake;
use golem::state::AppState;
use golem::store::{Database, Message, Session, StoreError, User};

fn flake(id: i64) -> Snowflake {
    Snowflake::try_from(id).unwrap()
}

fn msg(id: i64, author: i64, name: &str, parent: i64, content: &str) -> Message {
    Message {
        id: flake(id),
        author: flake(author),
        author_name: String::from(name),
        parent: flake(parent),
        content: String::from(content),
    }
}

fn fresh_state() -> AppState {
    AppState::new(1, 0).unwrap()
}

fn anonymous(id: i64) -> Presence {
    Presence { id: flake(id), session: None, name: String::from("Anonymous") }
}

#[test]
fn store_enforces_unique_users() {
    let mut db = Database::build();
    let hash = String::from("$argon2id$stored");
    db.add_user(User { id: flake(1), name: String::from("alice"), password: hash.clone() })
        .unwrap();
    // same name, fresh id: refused
    let r = db.add_user(User { id: flake(2), name: String::from("alice"), password: hash.clone() });
    assert!(matches!(r, Err(StoreError::Constraint)));
    // same id, fresh name: refused
    let r = db.add_user(User { id: flake(1), name: String::from("bob"), password: hash.clone() });
    assert!(matches!(r, Err(StoreError::Constraint)));
    db.add_user(User { id: flake(2), name: String::from("bob"), password: hash }).unwrap();
    assert_eq!(db.get_user(&flake(1)).unwrap().name, "alice");
    assert_eq!(db.get_user_by_name("bob").unwrap().id.id(), 2);
    assert!(db.get_user(&flake(9)).is_none());
    assert!(db.get_user_by_name("carol").is_none());
    assert_eq!(db.get_user_name(&flake(2)).unwrap(), "bob");
}

#[test]
fn store_sessions_round_trip() {
    let mut db = Database::build();
    db.add_session(Session::new(flake(10), 777, flake(1))).unwrap();
    // duplicate token refused: tokens are unique at the storage layer
    let r = db.add_session(Session::new(flake(11), 777, flake(2)));
    assert!(matches!(r, Err(StoreError::Constraint)));
    assert_eq!(db.get_session_from_token(&777).unwrap().id.id(), 10);
    assert!(db.get_session_from_token(&778).is_none());
    assert!(matches!(verify_session(777, &db), Ok(s) if s.user_id.id() == 1));
    assert!(matches!(verify_session(778, &db), Err(Error::SessionNotFound)));
    db.delete_session(&flake(10));
    assert!(db.get_session_from_token(&777).is_none());
    // deleting an absent session is a quiet no-op
    db.delete_session(&flake(10));
}

#[test]
fn store_rejects_duplicate_message_ids() {
    let mut db = Database::build();
    db.add_message(&msg(500, 1, "a", 100, "x")).unwrap();
    let r = db.add_message(&msg(500, 1, "a", 100, "y"));
    assert!(matches!(r, Err(StoreError::Constraint)));
}

#[test]
fn store_rejects_negative_identifiers() {
    // every legitimate identifier was minted by the generator, so rows
    // carrying a negative one are refused as constraint violations
    let mut db = Database::build();
    let bad_id = golem::snowflake::Snowflake { id: -5 };
    let r = db.add_user(User { id: bad_id, name: String::from("x"), password: String::from("h") });
    assert!(matches!(r, Err(StoreError::Constraint)));
    let r = db.add_session(Session::new(bad_id, 1, flake(1)));
    assert!(matches!(r, Err(StoreError::Constraint)));
    let r = db.add_session(Session::new(flake(1), 1, bad_id));
    assert!(matches!(r, Err(StoreError::Constraint)));
    let r = db.add_message(&Message {
        id: flake(500),
        author: bad_id,
        author_name: String::from("a"),
        parent: flake(100),
        content: String::from("c"),
    });
    assert!(matches!(r, Err(StoreError::Constraint)));
    assert_eq!(db.users.len(), 0);
    assert_eq!(db.sessions.len(), 0);
    assert_eq!(db.messages.len(), 0);
}

#[test]
fn store_rejects_parents_from_the_future() {
    // a parent must already exist (or be a room root minted earlier), so
    // its identifier is strictly below the message's own
    let mut db = Database::build();
    // self-parenting
    let r = db.add_message(&msg(500, 1, "a", 500, "loop"));
    assert!(matches!(r, Err(StoreError::Constraint)));
    // a parent identifier not yet minted
    let r = db.add_message(&msg(500, 1, "a", 600, "forward"));
    assert!(matches!(r, Err(StoreError::Constraint)));
    assert_eq!(db.messages.len(), 0);
    // a parent from the past is fine whether it is a message or a room root
    db.add_message(&msg(500, 1, "a", 100, "ok")).unwrap();
    db.add_message(&msg(600, 1, "a", 500, "reply")).unwrap();
}

#[test]
fn children_of_depth_budget() {
    // room root 100; M (200) has child C (300) which has grandchild G (400)
    let mut db = Database::build();
    db.add_message(&msg(200, 1, "a", 100, "m")).unwrap();
    db.add_message(&msg(300, 1, "a", 200, "c")).unwrap();
    db.add_message(&msg(400, 1, "a", 300, "g")).unwrap();
    let parent = flake(200);

    let two = db.get_children_of(Some(&parent), 2);
    assert_eq!(two.len(), 2);
    assert_eq!(two[0].id.id(), 300);
    assert_eq!(two[1].id.id(), 400);

    let one = db.get_children_of(Some(&parent), 1);
    assert_eq!(one.len(), 1);
    assert_eq!(one[0].id.id(), 300);

    let zero = db.get_children_of(Some(&parent), 0);
    assert_eq!(zero.len(), 0);

    let none = db.get_children_of(None, 2);
    assert_eq!(none.len(), 0);
}

#[test]
fn appended_message_is_listed_under_its_parent() {
    let mut db = Database::build();
    db.add_message(&msg(200, 1, "a", 100, "m")).unwrap();
    // append m with parent 200, then load descendants of 200 at depth 1
    db.add_message(&msg(250, 1, "a", 200, "reply")).unwrap();
    let kids = db.get_children_of(Some(&flake(200)), 1);
    assert!(kids.iter().any(|k| k.id.id() == 250));
    // with depth 0 the same query returns empty, children or not
    assert_eq!(db.get_children_of(Some(&flake(200)), 0).len(), 0);
}

#[test]
fn recent_messages_are_top_level_newest_first() {
    let mut db = Database::build();
    db.add_message(&msg(200, 1, "a", 100, "m1")).unwrap();
    db.add_message(&msg(300, 1, "a", 100, "m2")).unwrap();
    db.add_message(&msg(350, 1, "a", 300, "reply")).unwrap();
    db.add_message(&msg(500, 1, "a", 100, "m3")).unwrap();

    let recent = db.get_some_messages(None, 10);
    let ids: Vec<i64> = recent.iter().map(|m| m.id.id()).collect();
    assert_eq!(ids, vec![500, 300, 200]);

    let capped = db.get_some_messages(None, 2);
    let ids: Vec<i64> = capped.iter().map(|m| m.id.id()).collect();
    assert_eq!(ids, vec![500, 300]);

    // the bound itself is excluded: strictly before
    let before = db.get_some_messages(Some(flake(300)), 10);
    let ids: Vec<i64> = before.iter().map(|m| m.id.id()).collect();
    assert_eq!(ids, vec![200]);

    let all = db.get_messages();
    let ids: Vec<i64> = all.iter().map(|m| m.id.id()).collect();
    assert_eq!(ids, vec![500, 350, 300, 200]);

    let recent100 = db.get_recent_messages();
    assert_eq!(recent100.len(), 3);
}

#[test]
fn wire_frame_round_trip() {
    let m = msg(200, 7, "alice", 100, "hi there");
    let bytes = serialize_message(&m);
    let back = parse_message(bytes.as_slice()).unwrap();
    assert_eq!(back.id.id(), m.id.id());
    assert_eq!(back.author.id(), m.author.id());
    assert_eq!(back.parent.id(), m.parent.id());
    assert_eq!(back.author_name, m.author_name);
    assert_eq!(back.content, m.content);
}

#[test]
fn wire_frame_escapes_and_round_trips_awkward_text() {
    let m = msg(
        1,
        2,
        "na\"me\\with\nescapes",
        3,
        "content with \"quotes\", back\\slashes, tabs\t and newlines\n",
    );
    let bytes = serialize_message(&m);
    let back = parse_message(bytes.as_slice()).unwrap();
    assert_eq!(back.author_name, m.author_name);
    assert_eq!(back.content, m.content);
    assert_eq!(back.id.id(), m.id.id());
}

#[test]
fn wire_frame_text_form() {
    let m = msg(5, 6, "a", 7, "x");
    let bytes = serialize_message(&m);
    let text = String::from_utf8(bytes).unwrap();
    assert_eq!(
        text,
        "{\"id\":\"5\",\"author\":\"6\",\"author_name\":\"a\",\"parent\":\"7\",\"content\":\"x\"}"
    );
}

#[test]
fn wire_frame_rejects_junk() {
    assert!(parse_message(b"").is_none());
    assert!(parse_message(b"{}").is_none());
    assert!(parse_message(b"{\"id\":\"5\"}").is_none());
}

#[test]
fn register_then_login_issues_a_cookie() {
    let mut state = fresh_state();
    let id_text = register(
        &mut state,
        PartialUser { name: String::from("alice"), password: String::from("pw") },
    )
    .unwrap();
    assert!(id_text.chars().all(|c| c.is_ascii_digit()));
    // a second registration under the same name is refused
    let again = register(
        &mut state,
        PartialUser { name: String::from("alice"), password: String::from("other") },
    );
    assert!(matches!(again, Err(RegisterError::NameTaken)));

    let cookie = login(
        &mut state,
        CreateUser { name: String::from("alice"), password: String::from("pw") },
    )
    .unwrap();
    assert!(cookie.starts_with("token="));
    assert!(cookie.ends_with("; HttpOnly; SameSite=Lax; Path=/;"));
    // the stored session carries the token in the cookie
    let token_text = &cookie["token=".len()..cookie.find(';').unwrap()];
    let token = golem::auth::parse_token(token_text).unwrap();
    let session = verify_session(token, &state.database).unwrap();
    assert_eq!(session.user_id.id(), state.database.get_user_by_name("alice").unwrap().id.id());
}

#[test]
fn login_failures_do_not_create_sessions() {
    let mut state = fresh_state();
    register(&mut state, PartialUser { name: String::from("alice"), password: String::from("pw") })
        .unwrap();
    let r = login(
        &mut state,
        CreateUser { name: String::from("nobody"), password: String::from("pw") },
    );
    assert!(matches!(r, Err(LoginError::UserNotFound)));
    let r = login(
        &mut state,
        CreateUser { name: String::from("alice"), password: String::from("wrong") },
    );
    assert!(matches!(r, Err(LoginError::WrongPassword)));
    assert_eq!(state.database.sessions.len(), 0);
}

#[test]
fn authenticate_scenario_success_broadcasts_update() {
    // connection A authenticates as "alice" with the correct password
    let mut state = fresh_state();
    let hash = hash_password(String::from("correct horse")).unwrap();
    let alice_id = state.next_snowflake().unwrap();
    state
        .database
        .add_user(User { id: alice_id, name: String::from("alice"), password: hash })
        .unwrap();
    let mut presence = anonymous(999);
    let mut dedup: Vec<Option<String>> = Vec::new();
    let room = flake(100);

    let out = handle_message(
        ClientMsg::Authenticate(golem::conn::PartialUser {
            name: String::from("alice"),
            password: String::from("correct horse"),
        }),
        &mut presence,
        &mut dedup,
        &mut state,
        &room,
    )
    .unwrap();

    assert_eq!(out.len(), 2);
    match &out[0] {
        HandlerResult::Broadcast(ServerMsg::Update(p)) => {
            assert_eq!(p.name, "alice");
            assert!(p.session.is_some());
        }
        other => panic!("expected a broadcast presence update, got {:?}", result_kind(other)),
    }
    match &out[1] {
        HandlerResult::Reply(ServerMsg::Authenticate { success, presence_id }) => {
            assert!(*success);
            assert_eq!(presence_id, "999");
        }
        other => panic!("expected an authentication reply, got {:?}", result_kind(other)),
    }
    assert_eq!(presence.name, "alice");
    assert_eq!(presence.session.as_ref().unwrap().user_id.id(), alice_id.id());
}

#[test]
fn authenticate_scenario_wrong_password_replies_only() {
    let mut state = fresh_state();
    let hash = hash_password(String::from("right")).unwrap();
    let alice_id = state.next_snowflake().unwrap();
    state
        .database
        .add_user(User { id: alice_id, name: String::from("alice"), password: hash })
        .unwrap();
    let mut presence = anonymous(999);
    let mut dedup: Vec<Option<String>> = Vec::new();
    let room = flake(100);

    let out = handle_message(
        ClientMsg::Authenticate(golem::conn::PartialUser {
            name: String::from("alice"),
            password: String::from("wrong"),
        }),
        &mut presence,
        &mut dedup,
        &mut state,
        &room,
    )
    .unwrap();

    // a single reply, no broadcast at all
    assert_eq!(out.len(), 1);
    match &out[0] {
        HandlerResult::Reply(ServerMsg::Authenticate { success, .. }) => assert!(!*success),
        other => panic!("expected a failure reply, got {:?}", result_kind(other)),
    }
    assert!(presence.session.is_none());
    assert_eq!(presence.name, "Anonymous");
}

#[test]
fn duplicate_post_is_suppressed() {
    // connection B posts, then immediately resends the identical command
    let mut state = fresh_state();
    let mut presence = anonymous(999);
    let mut dedup: Vec<Option<String>> = Vec::new();
    let room = flake(100);
    let command = || {
        ClientMsg::Message(SendMessage {
            parent: flake(100),
            content: String::from("hi"),
            dedup_id: Some(String::from("x1")),
        })
    };

    let first = handle_message(command(), &mut presence, &mut dedup, &mut state, &room).unwrap();
    assert_eq!(first.len(), 1);
    assert!(matches!(&first[0], HandlerResult::Broadcast(ServerMsg::NewMessage(_))));
    assert_eq!(state.database.messages.len(), 1);

    let second = handle_message(command(), &mut presence, &mut dedup, &mut state, &room).unwrap();
    assert_eq!(second.len(), 1);
    match &second[0] {
        HandlerResult::Reply(ServerMsg::Duplicate(d)) => assert_eq!(d, "x1"),
        other => panic!("expected a duplicate notice, got {:?}", result_kind(other)),
    }
    // no second stored message
    assert_eq!(state.database.messages.len(), 1);
}

#[test]
fn posts_without_dedup_keys_always_store() {
    let mut state = fresh_state();
    let mut presence = anonymous(999);
    let mut dedup: Vec<Option<String>> = Vec::new();
    let room = flake(100);
    for _ in 0..3 {
        let out = handle_message(
            ClientMsg::Message(SendMessage {
                parent: flake(100),
                content: String::from("hi"),
                dedup_id: None,
            }),
            &mut presence,
            &mut dedup,
            &mut state,
            &room,
        )
        .unwrap();
        assert!(matches!(&out[0], HandlerResult::Broadcast(ServerMsg::NewMessage(_))));
    }
    assert_eq!(state.database.messages.len(), 3);
}

#[test]
fn load_children_through_the_handler() {
    let mut state = fresh_state();
    let mut presence = anonymous(999);
    let mut dedup: Vec<Option<String>> = Vec::new();
    let room = flake(100);
    state.database.add_message(&msg(200, 1, "a", 100, "m")).unwrap();
    state.database.add_message(&msg(300, 1, "a", 200, "c")).unwrap();
    state.database.add_message(&msg(400, 1, "a", 300, "g")).unwrap();

    let out = handle_message(
        ClientMsg::LoadChildren { parent: flake(200), depth: Some(2) },
        &mut presence,
        &mut dedup,
        &mut state,
        &room,
    )
    .unwrap();
    match &out[0] {
        HandlerResult::Reply(ServerMsg::Messages(v)) => {
            let ids: Vec<i64> = v.iter().map(|m| m.id.id()).collect();
            assert_eq!(ids, vec![300, 400]);
        }
        other => panic!("expected a messages reply, got {:?}", result_kind(other)),
    }

    let all = handle_message(
        ClientMsg::LoadAllMessages,
        &mut presence,
        &mut dedup,
        &mut state,
        &room,
    )
    .unwrap();
    match &all[0] {
        HandlerResult::Reply(ServerMsg::Messages(v)) => {
            let ids: Vec<i64> = v.iter().map(|m| m.id.id()).collect();
            assert_eq!(ids, vec![200, 300, 400]);
        }
        other => panic!("expected a messages reply, got {:?}", result_kind(other)),
    }
}

#[test]
fn load_messages_through_the_handler() {
    let mut state = fresh_state();
    let mut presence = anonymous(999);
    let mut dedup: Vec<Option<String>> = Vec::new();
    let room = flake(100);
    state.database.add_message(&msg(200, 1, "a", 100, "m1")).unwrap();
    state.database.add_message(&msg(300, 1, "a", 100, "m2")).unwrap();
    state.database.add_message(&msg(400, 1, "a", 100, "m3")).unwrap();

    let out = handle_message(
        ClientMsg::LoadMessages { before: Some(flake(400)), amount: 5 },
        &mut presence,
        &mut dedup,
        &mut state,
        &room,
    )
    .unwrap();
    match &out[0] {
        HandlerResult::Reply(ServerMsg::Messages(v)) => {
            let ids: Vec<i64> = v.iter().map(|m| m.id.id()).collect();
            assert_eq!(ids, vec![300, 200]);
        }
        other => panic!("expected a messages reply, got {:?}", result_kind(other)),
    }
}

#[test]
fn posts_are_attributed_to_the_bound_user() {
    let mut state = fresh_state();
    let user_id = flake(77);
    let mut presence = Presence {
        id: flake(999),
        session: Some(Session::new(flake(10), 123, user_id)),
        name: String::from("alice"),
    };
    let mut dedup: Vec<Option<String>> = Vec::new();
    let room = flake(100);
    let out = handle_message(
        ClientMsg::Message(SendMessage {
            parent: flake(100),
            content: String::from("hello"),
            dedup_id: None,
        }),
        &mut presence,
        &mut dedup,
        &mut state,
        &room,
    )
    .unwrap();
    match &out[0] {
        HandlerResult::Broadcast(ServerMsg::NewMessage(m)) => {
            assert_eq!(m.author.id(), 77);
            assert_eq!(m.author_name, "alice");
            assert_eq!(m.parent.id(), 100);
            assert_eq!(m.content, "hello");
        }
        other => panic!("expected a new-message broadcast, got {:?}", result_kind(other)),
    }
    // an anonymous presence is its own author
    let mut anon = anonymous(555);
    let out = handle_message(
        ClientMsg::Message(SendMessage {
            parent: flake(100),
            content: String::from("psst"),
            dedup_id: None,
        }),
        &mut anon,
        &mut dedup,
        &mut state,
        &room,
    )
    .unwrap();
    match &out[0] {
        HandlerResult::Broadcast(ServerMsg::NewMessage(m)) => {
            assert_eq!(m.author.id(), 555);
        }
        other => panic!("expected a new-message broadcast, got {:?}", result_kind(other)),
    }
}

#[test]
fn pong_produces_nothing() {
    let mut state = fresh_state();
    let mut presence = anonymous(999);
    let mut dedup: Vec<Option<String>> = Vec::new();
    let room = flake(100);
    let out = handle_message(ClientMsg::Pong, &mut presence, &mut dedup, &mut state, &room);
    assert!(out.is_none());
}

#[test]
fn change_name_updates_presence_and_broadcasts() {
    let mut state = fresh_state();
    let mut presence = anonymous(999);
    let mut dedup: Vec<Option<String>> = Vec::new();
    let room = flake(100);
    let out = handle_message(
        ClientMsg::ChangeName(String::from("new name")),
        &mut presence,
        &mut dedup,
        &mut state,
        &room,
    )
    .unwrap();
    assert_eq!(presence.name, "new name");
    match &out[0] {
        HandlerResult::Broadcast(ServerMsg::Update(p)) => assert_eq!(p.name, "new name"),
        other => panic!("expected a broadcast update, got {:?}", result_kind(other)),
    }
    assert_eq!(state.database.messages.len(), 0);
}

#[test]
fn connection_lifecycle_announces_join_and_leave() {
    // a connection opens, then disconnects mid-session: everyone else in the
    // room sees the join and eventually the leave
    let (mut conn, opening) = Connection::open(7, anonymous(999));
    assert_eq!(opening.len(), 1);
    assert!(matches!(opening[0].target, Target::All));
    assert!(matches!(opening[0].content, ServerMsg::Join(_)));

    let closing = conn.close();
    assert!(!conn.open);
    assert_eq!(closing.len(), 1);
    assert!(matches!(closing[0].target, Target::All));
    match &closing[0].content {
        ServerMsg::Leave(p) => assert_eq!(p.id.id(), 999),
        _ => panic!("expected a leave event"),
    }
    // every other connection keeps an all-targets envelope
    assert!(should_deliver(&closing[0].target, 8));
    assert!(should_deliver(&closing[0].target, 7));
}

#[test]
fn opening_with_a_session_confirms_authentication_first() {
    let presence = Presence {
        id: flake(999),
        session: Some(Session::new(flake(10), 777, flake(1))),
        name: String::from("alice"),
    };
    let (_conn, opening) = Connection::open(7, presence);
    assert_eq!(opening.len(), 2);
    assert!(matches!(opening[0].target, Target::One(7)));
    match &opening[0].content {
        ServerMsg::Authenticate { success, presence_id } => {
            assert!(*success);
            assert_eq!(presence_id, "999");
        }
        _ => panic!("expected an authentication confirmation"),
    }
    assert!(matches!(opening[1].target, Target::All));
}

#[test]
fn envelopes_route_replies_and_broadcasts() {
    let rs = vec![
        HandlerResult::Reply(ServerMsg::Error),
        HandlerResult::Broadcast(ServerMsg::Error),
    ];
    let out = envelope_all(7, rs);
    assert_eq!(out.len(), 2);
    assert!(matches!(out[0].target, Target::One(7)));
    assert!(matches!(out[1].target, Target::All));
    // the delivery filter: replies reach only their connection
    assert!(should_deliver(&out[0].target, 7));
    assert!(!should_deliver(&out[0].target, 8));
    assert!(should_deliver(&out[1].target, 8));
}

#[test]
fn presence_resolution_uses_the_stored_session() {
    let mut db = Database::build();
    db.add_user(User { id: flake(1), name: String::from("alice"), password: String::from("h") })
        .unwrap();
    db.add_session(Session::new(flake(10), 777, flake(1))).unwrap();

    let p = presence_for_connection(&db, Some(777), flake(999));
    assert_eq!(p.name, "alice");
    assert_eq!(p.session.as_ref().unwrap().token, 777);

    let anon = presence_for_connection(&db, Some(778), flake(999));
    assert!(anon.session.is_none());
    assert_eq!(anon.name, "Anonymous");

    let no_token = presence_for_connection(&db, None, flake(999));
    assert!(no_token.session.is_none());
    assert_eq!(no_token.name, "Anonymous");
}

#[test]
fn server_events_serialize_to_tagged_objects() {
    let dup = golem::conn::serialize_server_msg(&ServerMsg::Duplicate(String::from("x\"1")));
    assert_eq!(String::from_utf8(dup).unwrap(), "{\"Duplicate\":\"x\\\"1\"}");

    let err = golem::conn::serialize_server_msg(&ServerMsg::Error);
    assert_eq!(String::from_utf8(err).unwrap(), "\"Error\"");

    let join = golem::conn::serialize_server_msg(&ServerMsg::Join(Presence {
        id: flake(42),
        session: None,
        name: String::from("Anonymous"),
    }));
    assert_eq!(
        String::from_utf8(join).unwrap(),
        "{\"Join\":{\"id\":\"42\",\"name\":\"Anonymous\",\"authenticated\":false}}"
    );

    let auth = golem::conn::serialize_server_msg(&ServerMsg::Authenticate {
        success: true,
        presence_id: String::from("7"),
    });
    assert_eq!(
        String::from_utf8(auth).unwrap(),
        "{\"Authenticate\":{\"success\":true,\"presence_id\":\"7\"}}"
    );

    let new_msg = golem::conn::serialize_server_msg(&ServerMsg::NewMessage(msg(5, 6, "a", 7, "x")));
    assert_eq!(
        String::from_utf8(new_msg).unwrap(),
        "{\"NewMessage\":{\"id\":\"5\",\"author\":\"6\",\"author_name\":\"a\",\"parent\":\"7\",\"content\":\"x\"}}"
    );

    let list = golem::conn::serialize_server_msg(&ServerMsg::Messages(vec![
        msg(1, 2, "a", 3, "u"),
        msg(4, 5, "b", 6, "v"),
    ]));
    assert_eq!(
        String::from_utf8(list).unwrap(),
        "{\"Messages\":[{\"id\":\"1\",\"author\":\"2\",\"author_name\":\"a\",\"parent\":\"3\",\"content\":\"u\"},{\"id\":\"4\",\"author\":\"5\",\"author_name\":\"b\",\"parent\":\"6\",\"content\":\"v\"}]}"
    );
}

fn result_kind(h: &HandlerResult) -> &'static str {
    match h {
        HandlerResult::Reply(m) => msg_kind(m),
        HandlerResult::Broadcast(m) => msg_kind(m),
    }
}

fn msg_kind(m: &ServerMsg) -> &'static str {
    match m {
        ServerMsg::Authenticate { .. } => "Authenticate",
        ServerMsg::NewMessage(_) => "NewMessage",
        ServerMsg::Error => "Error",
        ServerMsg::Messages(_) => "Messages",
        ServerMsg::Duplicate(_) => "Duplicate",
        ServerMsg::Join(_) => "Join",
        ServerMsg::Leave(_) => "Leave",
        ServerMsg::Update(_) => "Update",
    }
}
