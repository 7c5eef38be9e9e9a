use spielesammlung::go::Stone;
use spielesammlung::go_session::{BoardClick, GoGame, GoGameState, RemoteMessage};

#[test]
fn a_new_session_waits_on_the_menu() {
    let s = GoGame::new();
    assert_eq!(s.status_message, "Spiel gestartet. Schwarz ist am Zug.");
    assert_eq!(s.game_state, GoGameState::Menu);
    assert!(!s.multiplayer);
    assert_eq!(s.my_color, None);
    assert_eq!(s.game.board.size, 19);
}

#[test]
fn local_clicks_place_stones_and_report_errors() {
    let mut s = GoGame::new();
    assert_eq!(s.local_button_clicked(Some(2)), Some(2));
    assert_eq!(s.game_state, GoGameState::Playing);
    let r = s.board_clicked(3, 3);
    assert_eq!(r, BoardClick::Played { x: 3, y: 3, send_move: false, computer_replies: false });
    assert_eq!(s.status_message, "Zug akzeptiert. White ist am Zug.");
    assert_eq!(s.game.current_turn, Stone::White);
    let r = s.board_clicked(3, 3);
    assert_eq!(r, BoardClick::Refused);
    assert_eq!(s.status_message, "Ungültiger Zug: Punkt ist nicht frei");
    assert_eq!(s.board_clicked(-1, 4), BoardClick::Ignored);
    assert_eq!(s.board_clicked(4, 19), BoardClick::Ignored);
    assert_eq!(s.status_message, "Ungültiger Zug: Punkt ist nicht frei");
}

#[test]
fn the_computer_answers_when_enabled() {
    let mut s = GoGame::new();
    s.ai_enabled = true;
    let r = s.board_clicked(10, 10);
    assert_eq!(r, BoardClick::Played { x: 10, y: 10, send_move: false, computer_replies: true });
    assert!(s.computer_moved(Some((4, 4))));
    assert_eq!(s.status_message, "AI spielt (4, 4). Black ist am Zug.");
    assert_eq!(s.game.current_turn, Stone::Black);
    s.board_clicked(0, 0);
    assert!(!s.computer_moved(Some((0, 0))));
    assert_eq!(s.status_message, "AI Zug ungültig: Punkt ist nicht frei");
    assert!(!s.computer_moved(None));
    assert_eq!(s.status_message, "AI passt.");
    assert_eq!(s.game.current_turn, Stone::Black);
}

#[test]
fn multiplayer_sides_take_turns() {
    let mut host = GoGame::new();
    host.host_created("ABC234".to_string());
    assert_eq!(host.room_key, "ABC234");
    assert_eq!(host.my_color, Some(Stone::Black));
    assert_eq!(host.game_state, GoGameState::WaitingForOpponent);
    assert_eq!(host.status_message, "Schwarz ist am Zug.");
    host.opponent_joined();
    assert_eq!(host.game_state, GoGameState::Playing);
    assert_eq!(host.status_message, "Gegner beigetreten! Schwarz ist am Zug.");

    let mut guest = GoGame::new();
    guest.start_multiplayer_game();
    assert_eq!(guest.my_color, Some(Stone::White));
    assert_eq!(guest.status_message, "Multiplayer gestartet. Schwarz ist am Zug.");
    assert_eq!(guest.board_clicked(5, 5), BoardClick::Ignored);

    let r = host.board_clicked(5, 5);
    assert_eq!(r, BoardClick::Played { x: 5, y: 5, send_move: true, computer_replies: false });
    assert_eq!(host.board_clicked(6, 6), BoardClick::Ignored);
    guest.remote_move(5, 5);
    assert_eq!(guest.status_message, "White ist am Zug.");
    assert_eq!(guest.game.board.get(5, 5), Some(Stone::Black));
    let r = guest.board_clicked(6, 6);
    assert_eq!(r, BoardClick::Played { x: 6, y: 6, send_move: true, computer_replies: false });
}

#[test]
fn a_remote_move_off_the_board_changes_nothing_but_the_line() {
    let mut s = GoGame::new();
    s.start_multiplayer_game();
    s.remote_move(40, 2);
    assert_eq!(s.game.current_turn, Stone::Black);
    assert_eq!(s.status_message, "Black ist am Zug.");
}

#[test]
fn two_passes_end_the_game_with_the_score() {
    let mut s = GoGame::new();
    s.pass_clicked();
    assert_eq!(s.status_message, "Gepasst. White ist am Zug.");
    s.pass_clicked();
    assert!(s.game.game_over);
    assert_eq!(s.status_message, "Spiel vorbei! Schwarz 0.0 — Weiß 6.5");
    let (winner, line) = s.result_lines();
    assert_eq!(winner, "Weiß gewinnt!");
    assert_eq!(line, "Schwarz: 0.0  ·  Weiß: 6.5");
    assert_eq!(s.board_clicked(1, 1), BoardClick::Ignored);
}

#[test]
fn a_lone_black_stone_owns_the_board() {
    let mut s = GoGame::new();
    s.board_clicked(3, 3);
    s.pass_clicked();
    s.pass_clicked();
    assert_eq!(s.status_message, "Spiel vorbei! Schwarz 361.0 — Weiß 6.5");
    let (winner, _) = s.result_lines();
    assert_eq!(winner, "Schwarz gewinnt!");
}

#[test]
fn restart_gives_a_fresh_board() {
    let mut s = GoGame::new();
    s.board_clicked(3, 3);
    s.restart_clicked();
    assert_eq!(s.status_message, "Spiel neugestartet. Schwarz ist am Zug.");
    assert_eq!(s.game.board.get(3, 3), None);
    assert_eq!(s.game.current_turn, Stone::Black);
    s.start_clicked();
    assert_eq!(s.game_state, GoGameState::Playing);
}

#[test]
fn passes_and_restarts_are_sent_in_multiplayer_only() {
    let mut local = GoGame::new();
    assert!(!local.pass_clicked());
    assert!(!local.restart_clicked());

    let mut host = GoGame::new();
    host.host_created("ABC234".to_string());
    host.opponent_joined();
    assert!(host.pass_clicked());
    assert_eq!(host.game.current_turn, Stone::White);
    assert!(host.restart_clicked());
    assert_eq!(host.game.current_turn, Stone::Black);
}

#[test]
fn the_opponent_leaving_returns_to_the_menu() {
    let mut host = GoGame::new();
    host.host_created("ABC234".to_string());
    host.opponent_joined();
    host.board_clicked(4, 4);
    host.opponent_left();
    assert_eq!(host.game_state, GoGameState::Menu);
    assert!(!host.multiplayer);
    assert_eq!(host.my_color, None);
    assert_eq!(host.game.board.get(4, 4), Some(Stone::Black));
    assert_eq!(host.room_key, "ABC234");
}

#[test]
fn a_played_stone_stays_on_the_board_with_its_captures() {
    let mut s = GoGame::new();
    // Black surrounds the white stone on (1, 0) in the corner
    s.board_clicked(0, 0);
    s.board_clicked(1, 0);
    s.board_clicked(2, 0);
    s.board_clicked(5, 5);
    let r = s.board_clicked(1, 1);
    assert_eq!(r, BoardClick::Played { x: 1, y: 1, send_move: false, computer_replies: false });
    assert_eq!(s.game.board.get(1, 1), Some(Stone::Black));
    assert_eq!(s.game.board.get(1, 0), None);
    assert_eq!(s.game.captured_white, 1);
    assert_eq!(s.game.last_move, Some((1, 1)));
    assert_eq!(s.game.current_turn, Stone::White);
}

#[test]
fn messages_of_the_opponent_are_played() {
    let mut host = GoGame::new();
    host.host_created("ABC234".to_string());
    host.on_remote(RemoteMessage::Move { x: 1, y: 1 });
    assert_eq!(host.game_state, GoGameState::WaitingForOpponent);
    host.on_remote(RemoteMessage::OpponentJoined);
    assert_eq!(host.game_state, GoGameState::Playing);
    assert_eq!(host.status_message, "Gegner beigetreten! Schwarz ist am Zug.");
    host.board_clicked(3, 3);
    host.on_remote(RemoteMessage::Move { x: 4, y: 4 });
    assert_eq!(host.game.board.get(4, 4), Some(Stone::White));
    assert_eq!(host.status_message, "Black ist am Zug.");
    host.on_remote(RemoteMessage::Other);
    assert_eq!(host.game.current_turn, Stone::Black);
    host.on_remote(RemoteMessage::Pass);
    assert_eq!(host.game.current_turn, Stone::White);
    assert_eq!(host.status_message, "Gepasst. White ist am Zug.");
    host.on_remote(RemoteMessage::Restart);
    assert_eq!(host.game.board.get(3, 3), None);
    assert_eq!(host.status_message, "Spiel neugestartet. Schwarz ist am Zug.");
    host.on_remote(RemoteMessage::OpponentJoined);
    assert_eq!(host.status_message, "Spiel neugestartet. Schwarz ist am Zug.");
    host.on_remote(RemoteMessage::OpponentLeft);
    assert_eq!(host.game_state, GoGameState::Menu);
    assert!(!host.multiplayer);
}
