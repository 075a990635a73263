use chatroom::registry::Rooms;
use chatroom::room::{Chatroom, ClientToServerEvent, Delivery};
use chatroom::session::{Session, SessionAction, SessionState};
use chatroom::store::Model;
use chatroom::wire::{ClientToServerMessage, ServerToClientMessage};

/// Sends each delivery the way a host does; sockets in `dead` fail.
fn pump(
    room: &mut Chatroom,
    first: Option<Delivery>,
    dead: &[i32],
    inbox: &mut Vec<(i32, ServerToClientMessage)>,
) {
    let mut next = first;
    while let Some(d) = next {
        let mut failed = Vec::new();
        for u in d.recipients.iter() {
            if dead.contains(u) {
                failed.push(*u);
            } else {
                inbox.push((*u, d.message.clone()));
            }
        }
        next = room.delivered(&failed);
    }
    assert!(room.is_ready());
}

fn event(
    room: &mut Chatroom,
    store: &mut Model,
    e: ClientToServerEvent,
    dead: &[i32],
    inbox: &mut Vec<(i32, ServerToClientMessage)>,
) {
    let first = room.handle_event(store, e, 0, 0);
    pump(room, first, dead, inbox);
}

fn received(inbox: &[(i32, ServerToClientMessage)], user: i32) -> Vec<ServerToClientMessage> {
    inbox.iter().filter(|(u, _)| *u == user).map(|(_, m)| m.clone()).collect()
}

#[test]
fn join_and_broadcast() {
    let mut room = Chatroom::new(7);
    let mut inbox = Vec::new();
    let mut store = Model::new();
    event(&mut room, &mut store, ClientToServerEvent::Connect { user_id: 1 }, &[], &mut inbox);
    event(&mut room, &mut store, ClientToServerEvent::Connect { user_id: 2 }, &[], &mut inbox);
    event(&mut room, &mut store, ClientToServerEvent::NewMessage("hi".to_string()), &[], &mut inbox);
    let hi = ServerToClientMessage::NewMessage { content: "hi".to_string() };
    assert_eq!(
        received(&inbox, 1),
        vec![
            ServerToClientMessage::Joined { chatroom_id: 7 },
            ServerToClientMessage::NewUser { user_id: 2 },
            hi.clone()
        ]
    );
    assert_eq!(received(&inbox, 2), vec![ServerToClientMessage::Joined { chatroom_id: 7 }, hi]);
    assert_eq!(room.get_user_count(), 2);
}

#[test]
fn disconnect_cascade() {
    let mut room = Chatroom::new(3);
    let mut inbox = Vec::new();
    let mut store = Model::new();
    for u in [1, 2, 3] {
        event(&mut room, &mut store, ClientToServerEvent::Connect { user_id: u }, &[], &mut inbox);
    }
    assert_eq!(room.get_user_count(), 3);
    inbox.clear();
    event(&mut room, &mut store, ClientToServerEvent::NewMessage("ping".to_string()), &[2], &mut inbox);
    let gone = ServerToClientMessage::UserDisconnected { user_id: 2 };
    for u in [1, 3] {
        let got = received(&inbox, u);
        assert_eq!(got.iter().filter(|m| **m == gone).count(), 1);
    }
    assert!(received(&inbox, 2).is_empty());
    assert_eq!(room.get_user_count(), 2);
    // The socket's reader ends later: the room does not announce it again.
    inbox.clear();
    event(&mut room, &mut store, ClientToServerEvent::Disconnect { user_id: 2 }, &[], &mut inbox);
    assert!(inbox.is_empty());
    assert_eq!(room.get_user_count(), 2);
}

#[test]
fn cascade_of_several_failures() {
    let mut room = Chatroom::new(4);
    let mut inbox = Vec::new();
    let mut store = Model::new();
    for u in [1, 2, 3, 4] {
        event(&mut room, &mut store, ClientToServerEvent::Connect { user_id: u }, &[], &mut inbox);
    }
    inbox.clear();
    event(&mut room, &mut store, ClientToServerEvent::NewMessage("x".to_string()), &[2, 4], &mut inbox);
    for u in [1, 3] {
        let got = received(&inbox, u);
        assert_eq!(got.len(), 3);
        assert!(got.contains(&ServerToClientMessage::UserDisconnected { user_id: 2 }));
        assert!(got.contains(&ServerToClientMessage::UserDisconnected { user_id: 4 }));
    }
    assert_eq!(room.get_user_count(), 2);
}

#[test]
fn failed_welcome_rolls_back() {
    let mut room = Chatroom::new(5);
    let mut inbox = Vec::new();
    let mut store = Model::new();
    event(&mut room, &mut store, ClientToServerEvent::Connect { user_id: 1 }, &[], &mut inbox);
    inbox.clear();
    let first = room.handle_event(&mut store, ClientToServerEvent::Connect { user_id: 9 }, 0, 0);
    assert_eq!(room.get_user_count(), 2);
    pump(&mut room, first, &[9], &mut inbox);
    assert_eq!(room.get_user_count(), 1);
    assert!(inbox.is_empty());
}

#[test]
fn connect_of_present_user_is_turned_away() {
    let mut room = Chatroom::new(5);
    let mut inbox = Vec::new();
    let mut store = Model::new();
    event(&mut room, &mut store, ClientToServerEvent::Connect { user_id: 1 }, &[], &mut inbox);
    assert!(room.handle_event(&mut store, ClientToServerEvent::Connect { user_id: 1 }, 0, 0).is_none());
    assert_eq!(room.get_user_count(), 1);
}

#[test]
fn count_matches_members_between_events() {
    let mut room = Chatroom::new(1);
    let mut inbox = Vec::new();
    let mut store = Model::new();
    assert_eq!(room.get_user_count(), 0);
    event(&mut room, &mut store, ClientToServerEvent::Connect { user_id: 10 }, &[], &mut inbox);
    event(&mut room, &mut store, ClientToServerEvent::Connect { user_id: 11 }, &[], &mut inbox);
    assert_eq!(room.get_user_count(), 2);
    event(&mut room, &mut store, ClientToServerEvent::Disconnect { user_id: 10 }, &[], &mut inbox);
    assert_eq!(room.get_user_count(), 1);
    assert_eq!(
        received(&inbox, 11).last(),
        Some(&ServerToClientMessage::UserDisconnected { user_id: 10 })
    );
}

#[test]
fn same_day_history() {
    let hour: i64 = 3_600_000;
    let midnight: i64 = 1_700_000_000_000 - 1_700_000_000_000 % 86_400_000;
    let mut room = Chatroom::new(2);
    let mut inbox = Vec::new();
    let mut store = Model::new();
    event(&mut room, &mut store, ClientToServerEvent::Connect { user_id: 1 }, &[], &mut inbox);
    for (h, text) in [(10, "a"), (11, "b"), (12, "c")] {
        let first = room.handle_event(
            &mut store,
            ClientToServerEvent::NewMessage(text.to_string()),
            midnight + h * hour,
            midnight,
        );
        pump(&mut room, first, &[], &mut inbox);
    }
    inbox.clear();
    let first = room.handle_event(&mut store, ClientToServerEvent::ChatsFromTodayRequest, midnight + 13 * hour, midnight);
    pump(&mut room, first, &[], &mut inbox);
    assert_eq!(
        received(&inbox, 1),
        vec![ServerToClientMessage::ChatsFromTodayResponse {
            messages: vec!["a".to_string(), "b".to_string(), "c".to_string()]
        }]
    );
    inbox.clear();
    let next_midnight = midnight + 24 * hour;
    let first = room.handle_event(&mut store, ClientToServerEvent::ChatsFromTodayRequest, next_midnight + hour, next_midnight);
    pump(&mut room, first, &[], &mut inbox);
    assert_eq!(
        received(&inbox, 1),
        vec![ServerToClientMessage::ChatsFromTodayResponse { messages: vec![] }]
    );
}

#[test]
fn second_join_is_ignored() {
    let mut session = Session::new(42);
    let join = ClientToServerMessage::Join { chatroom_id: 7 };
    assert!(matches!(session.on_frame(Some(join)), SessionAction::Connect { chatroom_id: 7 }));
    let again = ClientToServerMessage::Join { chatroom_id: 8 };
    assert!(matches!(session.on_frame(Some(again)), SessionAction::Ignore));
    assert_eq!(session.state, SessionState::Joined { chatroom_id: 7 });
    let msg = ClientToServerMessage::NewMessage { content: "x".to_string() };
    match session.on_frame(Some(msg)) {
        SessionAction::Forward(ClientToServerEvent::NewMessage(c)) => assert_eq!(c, "x"),
        _ => panic!("expected the message to go to the room"),
    }
    assert!(matches!(session.on_frame(None), SessionAction::Ignore));
    assert!(matches!(
        session.on_frame(Some(ClientToServerMessage::ChatsFromTodayRequest)),
        SessionAction::Forward(ClientToServerEvent::ChatsFromTodayRequest)
    ));
    assert!(matches!(
        session.on_end(),
        SessionAction::Forward(ClientToServerEvent::Disconnect { user_id: 42 })
    ));
    assert_eq!(session.state, SessionState::Closed);
}

#[test]
fn first_frame_must_be_join() {
    let mut session = Session::new(1);
    let msg = ClientToServerMessage::ChatsFromTodayRequest;
    assert!(matches!(session.on_frame(Some(msg)), SessionAction::Close));
    assert_eq!(session.state, SessionState::Closed);
    assert!(matches!(session.on_end(), SessionAction::Ignore));
}

#[test]
fn unseen_chatroom_is_created_with_no_users() {
    let mut rooms = Rooms::new();
    let terms = vec!["rust".to_string(), "go".to_string()];
    let counts = rooms.chatroom_counts(&terms);
    assert_eq!(counts.len(), 2);
    assert_eq!(counts[0].term, "rust");
    assert_eq!(counts[0].chatroom_id, -907731118);
    assert_eq!(counts[0].user_count, 0);
    assert_eq!(counts[1].chatroom_id, 451072076);
    assert_eq!(counts[1].user_count, 0);
    let i = rooms.get_channel(-907731118);
    assert_eq!(rooms.room(i).get_chatroom_id(), -907731118);
    let first = rooms.handle_event(i, ClientToServerEvent::Connect { user_id: 5 }, 0, 0);
    let mut next = first;
    while let Some(_) = next {
        next = rooms.delivered(i, &Vec::new());
    }
    let counts = rooms.chatroom_counts(&terms);
    assert_eq!(counts[0].user_count, 1);
    assert_eq!(counts[1].user_count, 0);
}

#[test]
fn store_keeps_rooms_apart() {
    let mut store = Model::new();
    store.insert_chat(1, "one", 100);
    store.insert_chat(2, "two", 100);
    store.insert_chat(1, "three", 200);
    assert_eq!(store.get_chats_from_today(1, 100), vec!["one", "three"]);
    assert_eq!(store.get_chats_from_today(2, 0), vec!["two"]);
    assert!(store.get_chats_from_today(3, 0).is_empty());
}

#[test]
fn accepted_socket_awaits_join() {
    let mut session = Session::accept();
    let id = session.user_id;
    assert_eq!(session.state, SessionState::AwaitingJoin);
    let join = ClientToServerMessage::Join { chatroom_id: -5 };
    assert!(matches!(session.on_frame(Some(join)), SessionAction::Connect { chatroom_id: -5 }));
    assert_eq!(session.user_id, id);
}

#[test]
fn chats_stay_in_time_order_when_the_clock_steps_back() {
    let mut store = Model::new();
    store.insert_chat(1, "a", 5);
    store.insert_chat(1, "b", 3);
    store.insert_chat(1, "c", 9);
    assert_eq!(store.get_chats_from_today(1, 0), vec!["a", "b", "c"]);
    // "b" was stamped 5, not 3: it is still there from 5 on.
    assert_eq!(store.get_chats_from_today(1, 5), vec!["a", "b", "c"]);
    assert_eq!(store.get_chats_from_today(1, 6), vec!["c"]);
}

#[test]
fn first_frame_without_message_closes() {
    let mut session = Session::new(3);
    assert!(matches!(session.on_frame(None), SessionAction::Close));
    assert_eq!(session.state, SessionState::Closed);
}

#[test]
fn repeated_count_request_adds_no_room() {
    let mut rooms = Rooms::new();
    let terms = vec!["a".to_string(), "b".to_string(), "a".to_string()];
    let first = rooms.chatroom_counts(&terms);
    assert_eq!(first[0].chatroom_id, first[2].chatroom_id);
    let i = rooms.get_channel(first[1].chatroom_id);
    let j = rooms.get_channel(first[0].chatroom_id);
    rooms.chatroom_counts(&terms);
    assert_eq!(rooms.get_channel(first[1].chatroom_id), i);
    assert_eq!(rooms.get_channel(first[0].chatroom_id), j);
    assert!(i < 2 && j < 2);
}
