use spielesammlung::lobby::{room_key_from_reply, RoomReply};
use spielesammlung::server::{
    generate_room_id, ClientMessage, Room, RoomManager, ServerMessage, ServerState, ROOM_CAPACITY,
};

const ID_CHARS: &str = "ABCDEFGHJKLMNPQRSTUVWXYZ23456789";

fn error(text: &str) -> ServerMessage {
    ServerMessage::Error { message: text.to_string() }
}

#[test]
fn room_ids_have_six_unambiguous_characters() {
    for _ in 0..50 {
        let id = generate_room_id();
        assert_eq!(id.chars().count(), 6);
        assert!(id.chars().all(|c| ID_CHARS.contains(c)));
        assert!(!id.contains('I') && !id.contains('O') && !id.contains('0') && !id.contains('1'));
    }
}

#[test]
fn room_keeps_join_order_and_no_duplicates() {
    let mut room = Room::new();
    assert!(room.is_empty());
    room.add_player(5);
    room.add_player(3);
    room.add_player(5);
    assert_eq!(room.players, vec![5, 3]);
    assert_eq!(room.broadcast(None), vec![5, 3]);
    assert_eq!(room.broadcast(Some(5)), vec![3]);
    assert_eq!(room.position(3), Some(1));
    assert_eq!(room.position(9), None);
    room.remove_player(5);
    assert_eq!(room.players, vec![3]);
    room.remove_player(3);
    assert!(room.is_empty());
}

#[test]
fn room_manager_removes_empty_rooms() {
    let mut rooms = RoomManager::new();
    let id = rooms.create_room();
    assert!(rooms.room_exists(&id));
    assert_eq!(rooms.player_count(&id), 0);
    rooms.join_room(&id, 1);
    rooms.join_room(&id, 2);
    assert_eq!(rooms.player_count(&id), 2);
    assert_eq!(rooms.broadcast(&id, Some(1)), vec![2]);
    assert_eq!(rooms.seat_of(&id, 2), Some(1));
    rooms.leave_room(&id, 1);
    assert_eq!(rooms.player_count(&id), 1);
    rooms.leave_room(&id, 2);
    assert!(!rooms.room_exists(&id));
    assert_eq!(rooms.player_count(&id), 0);
    assert!(rooms.broadcast(&id, None).is_empty());
    let missing = "ZZZZZZ".to_string();
    rooms.join_room(&missing, 4);
    assert!(!rooms.room_exists(&missing));
}

#[test]
fn player_ids_count_up_from_one() {
    let mut state = ServerState::new();
    assert_eq!(state.get_next_player_id(), 1);
    assert_eq!(state.get_next_player_id(), 2);
    assert_eq!(state.next_player_id, 3);
}

#[test]
fn create_join_move_and_leave() {
    let mut state = ServerState::new();
    let mut host_room: Option<String> = None;
    let out = state.handle_message(1, &mut host_room, ClientMessage::CreateRoom);
    let id = host_room.clone().expect("the host sits in the new room");
    assert_eq!(out, vec![(1, ServerMessage::RoomCreated { room_id: id.clone() })]);
    assert_eq!(state.rooms.player_count(&id), 1);

    let mut guest_room: Option<String> = None;
    let out = state.handle_message(2, &mut guest_room, ClientMessage::JoinRoom { room_id: id.clone() });
    assert_eq!(guest_room, Some(id.clone()));
    assert_eq!(
        out,
        vec![
            (2, ServerMessage::RoomJoined { room_id: id.clone(), player_number: 2 }),
            (1, ServerMessage::PlayerJoined { player_number: 2 }),
            (2, ServerMessage::PlayerJoined { player_number: 2 }),
        ]
    );

    let data = r#"{"from":12,"to":28}"#.to_string();
    let out = state.handle_message(1, &mut host_room, ClientMessage::GameMove { data: data.clone() });
    assert_eq!(out, vec![(2, ServerMessage::GameMove { data: data.clone() })]);
    let out = state.handle_message(2, &mut guest_room, ClientMessage::GameMove { data: data.clone() });
    assert_eq!(out, vec![(1, ServerMessage::GameMove { data })]);

    let out = state.handle_message(1, &mut host_room, ClientMessage::LeaveRoom);
    assert_eq!(out, vec![(2, ServerMessage::PlayerLeft { player_number: 1 })]);
    assert_eq!(host_room, None);
    assert_eq!(state.rooms.player_count(&id), 1);

    let out = state.handle_message(2, &mut guest_room, ClientMessage::LeaveRoom);
    assert!(out.is_empty());
    assert!(!state.rooms.room_exists(&id));
}

#[test]
fn a_full_room_refuses_a_third_player() {
    let mut state = ServerState::new();
    let mut a: Option<String> = None;
    let mut b: Option<String> = None;
    let mut c: Option<String> = None;
    state.handle_message(1, &mut a, ClientMessage::CreateRoom);
    let id = a.clone().unwrap();
    state.handle_message(2, &mut b, ClientMessage::JoinRoom { room_id: id.clone() });
    let out = state.handle_message(3, &mut c, ClientMessage::JoinRoom { room_id: id.clone() });
    assert_eq!(out, vec![(3, error("Raum ist voll"))]);
    assert_eq!(c, None);
    assert_eq!(state.rooms.player_count(&id), ROOM_CAPACITY);
}

#[test]
fn join_errors() {
    let mut state = ServerState::new();
    let mut a: Option<String> = None;
    let out = state.handle_message(1, &mut a, ClientMessage::JoinRoom { room_id: "NOROOM".to_string() });
    assert_eq!(out, vec![(1, error("Raum existiert nicht"))]);
    assert_eq!(a, None);
    state.handle_message(1, &mut a, ClientMessage::CreateRoom);
    let id = a.clone().unwrap();
    let out = state.handle_message(1, &mut a, ClientMessage::JoinRoom { room_id: id.clone() });
    assert_eq!(out, vec![(1, error("Bereits in diesem Raum"))]);
    assert_eq!(state.rooms.player_count(&id), 1);
}

#[test]
fn moves_and_leaving_need_a_room() {
    let mut state = ServerState::new();
    let mut a: Option<String> = None;
    let out = state.handle_message(4, &mut a, ClientMessage::GameMove { data: "{}".to_string() });
    assert_eq!(out, vec![(4, error("Nicht in einem Raum"))]);
    let out = state.handle_message(4, &mut a, ClientMessage::LeaveRoom);
    assert_eq!(out, vec![(4, error("Nicht in einem Raum"))]);
}

#[test]
fn a_move_alone_in_a_room_reaches_nobody() {
    let mut state = ServerState::new();
    let mut a: Option<String> = None;
    state.handle_message(1, &mut a, ClientMessage::CreateRoom);
    let out = state.handle_message(1, &mut a, ClientMessage::GameMove { data: "{}".to_string() });
    assert!(out.is_empty());
}

#[test]
fn creating_a_room_leaves_the_old_one() {
    let mut state = ServerState::new();
    let mut a: Option<String> = None;
    let mut b: Option<String> = None;
    state.handle_message(1, &mut a, ClientMessage::CreateRoom);
    let first = a.clone().unwrap();
    state.handle_message(2, &mut b, ClientMessage::JoinRoom { room_id: first.clone() });
    let out = state.handle_message(1, &mut a, ClientMessage::CreateRoom);
    let second = a.clone().unwrap();
    assert_eq!(out.len(), 2);
    assert_eq!(out[0], (2, ServerMessage::PlayerLeft { player_number: 1 }));
    assert_eq!(out[1], (1, ServerMessage::RoomCreated { room_id: second.clone() }));
    if first != second {
        assert_eq!(state.rooms.broadcast(&first, None), vec![2]);
    }
    assert_eq!(state.rooms.broadcast(&second, None), vec![1]);
}

#[test]
fn joining_another_room_leaves_the_old_one() {
    let mut state = ServerState::new();
    let mut a: Option<String> = None;
    let mut b: Option<String> = None;
    let mut c: Option<String> = None;
    state.handle_message(1, &mut a, ClientMessage::CreateRoom);
    state.handle_message(2, &mut b, ClientMessage::CreateRoom);
    let room_a = a.clone().unwrap();
    let room_b = b.clone().unwrap();
    if room_a == room_b {
        return;
    }
    state.handle_message(3, &mut c, ClientMessage::JoinRoom { room_id: room_a.clone() });
    let out = state.handle_message(3, &mut c, ClientMessage::JoinRoom { room_id: room_b.clone() });
    assert_eq!(
        out,
        vec![
            (1, ServerMessage::PlayerLeft { player_number: 2 }),
            (3, ServerMessage::RoomJoined { room_id: room_b.clone(), player_number: 2 }),
            (2, ServerMessage::PlayerJoined { player_number: 2 }),
            (3, ServerMessage::PlayerJoined { player_number: 2 }),
        ]
    );
    assert_eq!(state.rooms.broadcast(&room_a, None), vec![1]);
}

#[test]
fn disconnect_tells_the_other_player() {
    let mut state = ServerState::new();
    let mut a: Option<String> = None;
    let mut b: Option<String> = None;
    state.handle_message(1, &mut a, ClientMessage::CreateRoom);
    let id = a.clone().unwrap();
    state.handle_message(2, &mut b, ClientMessage::JoinRoom { room_id: id.clone() });
    let out = state.disconnect(2, b.clone());
    assert_eq!(out, vec![(1, ServerMessage::PlayerLeft { player_number: 2 })]);
    assert_eq!(state.rooms.broadcast(&id, None), vec![1]);
    let out = state.disconnect(1, a.clone());
    assert!(out.is_empty());
    assert!(!state.rooms.room_exists(&id));
    assert!(state.disconnect(9, None).is_empty());
}

#[test]
fn join_then_leave_restores_the_rooms() {
    let mut state = ServerState::new();
    let mut a: Option<String> = None;
    let mut b: Option<String> = None;
    state.handle_message(1, &mut a, ClientMessage::CreateRoom);
    let id = a.clone().unwrap();
    let before = state.rooms.broadcast(&id, None);
    state.handle_message(2, &mut b, ClientMessage::JoinRoom { room_id: id.clone() });
    state.handle_message(2, &mut b, ClientMessage::LeaveRoom);
    assert_eq!(state.rooms.broadcast(&id, None), before);
    assert_eq!(state.rooms.rooms.len(), 1);
}

#[test]
fn a_room_id_spells_its_draws() {
    assert_eq!(spielesammlung::server::room_id_from_draws(&[0, 8, 13, 23, 24, 31]), "AJPZ29");
    let r = RoomManager::new();
    let mut r = r;
    let id = r.create_room();
    assert!(id.chars().all(|c| ID_CHARS.contains(c)));
}

#[test]
fn the_room_key_a_host_shows() {
    assert_eq!(room_key_from_reply(None), (false, "json parse failed".to_string()));
    assert_eq!(room_key_from_reply(Some(RoomReply { room_id: None })), (false, "bad server response".to_string()));
    assert_eq!(room_key_from_reply(Some(RoomReply { room_id: Some("XY2345".to_string()) })), (true, "XY2345".to_string()));
}
