use spielesammlung::kniffel::{Dice, PlayerKind};
use spielesammlung::kniffel_session::{dice_ok, entry_fits, entry_possible, sheet_safe, KniffelGame, RemoteMessage, Screen};

fn all_sixes() -> [Dice; 5] {
    [Dice { eyes: 6, is_locked: false }; 5]
}

#[test]
fn a_new_session_shows_the_menu() {
    let s = KniffelGame::new();
    assert_eq!(s.screen, Screen::Menu);
    assert_eq!(s.players, 2);
    assert_eq!(s.bots, 0);
    assert_eq!(s.player_buttons, vec![vec![None; 13]; 2]);
    assert_eq!(s.game.number_of_players, 2);
    assert_eq!(s.multiplayer, None);
    assert_eq!(s.room_key, "");
}

#[test]
fn setup_screens() {
    let mut s = KniffelGame::new();
    assert_eq!(s.local_button_clicked(Some(3)), None);
    assert_eq!(s.screen, Screen::LocalSetup);
    s.back_clicked();
    assert_eq!(s.screen, Screen::Menu);
    assert_eq!(s.bot_button_clicked(Some(2)), None);
    assert_eq!(s.screen, Screen::LocalSetup);
    s.players = 1;
    s.bots = 2;
    s.start_local_game();
    assert_eq!(s.screen, Screen::InGame);
    assert_eq!(s.game.number_of_players, 3);
    assert_eq!(s.player_buttons.len(), 3);
    assert_eq!(s.game.all_players[0].kind, PlayerKind::Human);
    assert_eq!(s.game.all_players[2].kind, PlayerKind::Bot);
}

#[test]
fn throws_locks_and_an_entry_then_the_computer_plays() {
    let mut s = KniffelGame::new();
    s.players = 1;
    s.bots = 1;
    s.start_local_game();
    assert_eq!(s.category_clicked(0, 12), None);
    assert!(!s.throw_clicked());
    assert_eq!(s.game.current_player.number_of_throws, 1);
    assert!(s.game.current_player.dice_throw.iter().all(|d| (1..=6).contains(&d.eyes)));
    assert!(!s.dice_clicked(0));
    assert!(s.game.current_player.dice_throw[0].is_locked);
    let kept = s.game.current_player.dice_throw[0].eyes;
    s.throw_clicked();
    s.throw_clicked();
    assert_eq!(s.game.current_player.number_of_throws, 3);
    assert_eq!(s.game.current_player.dice_throw[0].eyes, kept);
    let before = s.game.current_player;
    assert!(!s.throw_clicked());
    assert_eq!(s.game.current_player, before);
    let sum: u32 = before.dice_throw.iter().map(|d| d.eyes as u32).sum();
    assert_eq!(s.category_clicked(1, 12), None);
    assert_eq!(s.category_clicked(0, 12), Some(sum as u8));
    assert_eq!(s.player_buttons[0][12], Some(sum));
    assert_eq!(s.game.all_players[0].point_table.points_thrown[12], Some(sum as u8));
    assert_eq!(s.game.current_player_index, 1);
    assert!(s.bot_turn_possible());
    s.bot_turn();
    assert_eq!(s.game.current_player_index, 0);
    let filled = s.player_buttons[1].iter().filter(|b| b.is_some()).count();
    assert_eq!(filled, 1);
    let entered = s.game.all_players[1].point_table.points_thrown.iter().filter(|p| p.is_some()).count();
    assert_eq!(entered, 1);
    assert!(!s.bot_turn_possible());
}

#[test]
fn a_network_game_takes_turns_by_seat() {
    let mut host = KniffelGame::new();
    host.host_created("ROOM42".to_string());
    assert_eq!(host.screen, Screen::WaitingForOpponent);
    assert_eq!(host.room_key, "ROOM42");
    host.start_multiplayer_game();
    assert_eq!(host.multiplayer, Some(0));
    assert_eq!(host.screen, Screen::InGame);

    let mut guest = KniffelGame::new();
    guest.start_multiplayer_game();
    assert_eq!(guest.multiplayer, Some(1));
    assert!(!guest.throw_clicked());
    assert_eq!(guest.game.current_player.number_of_throws, 0);
    assert!(!guest.dice_clicked(1));
    assert!(!guest.game.current_player.dice_throw[1].is_locked);

    assert!(host.throw_clicked());
    assert!(host.dice_clicked(2));

    guest.remote_dice_throw(&vec![Some(6), Some(6), Some(6), Some(6), Some(6)], Some(1));
    assert_eq!(guest.game.current_player.dice_throw, all_sixes());
    assert_eq!(guest.game.current_player.number_of_throws, 1);
    guest.remote_dice_lock(Some(2));
    assert!(guest.game.current_player.dice_throw[2].is_locked);
    guest.remote_dice_lock(Some(7));
    guest.remote_dice_lock(None);
    assert!(guest.game.current_player.dice_throw[2].is_locked);
    guest.remote_category(Some(11), Some(50));
    assert_eq!(guest.player_buttons[0][11], Some(50));
    assert_eq!(guest.game.all_players[0].point_table.points_thrown[11], Some(50));
    assert_eq!(guest.game.all_players[0].point_table.total_points[3], 50);
    assert_eq!(guest.game.current_player_index, 1);
    guest.remote_category(None, Some(3));
    assert_eq!(guest.game.current_player_index, 1);
}

#[test]
fn remote_dice_are_cut_to_a_byte() {
    let mut s = KniffelGame::new();
    s.remote_dice_throw(&vec![Some(258), None], Some(300));
    assert_eq!(s.game.current_player.dice_throw[0].eyes, 2);
    assert_eq!(s.game.current_player.dice_throw[1].eyes, 0);
    assert_eq!(s.game.current_player.number_of_throws, 44);
}

#[test]
fn entry_checks() {
    let mut s = KniffelGame::new();
    s.game.current_player.dice_throw = all_sixes();
    assert!(dice_ok(&s.game.current_player.dice_throw));
    assert!(entry_possible(&s.game.current_player, 12));
    assert!(entry_fits(&s.game.current_player, 12));
    assert!(sheet_safe(&s.game.current_player));
    s.game.current_player.dice_throw[0].eyes = 255;
    assert!(!dice_ok(&s.game.current_player.dice_throw));
    assert!(!entry_possible(&s.game.current_player, 12));
    assert!(entry_possible(&s.game.current_player, 0));
    // A sheet close to a byte's worth of points cannot take a full Kniffel.
    let mut p = s.game.current_player;
    p.dice_throw = all_sixes();
    p.point_table.points_thrown[12] = Some(210);
    assert!(!entry_fits(&p, 11));
    assert!(entry_fits(&p, 12));
    assert!(!sheet_safe(&p));
}

#[test]
fn winner_lines() {
    let mut s = KniffelGame::new();
    for i in 0..2 {
        for c in 0..13 {
            s.game.all_players[i].point_table.points_thrown[c] = Some(1);
        }
    }
    // The winners are exactly the players with the highest total.
    s.game.all_players[0].point_table.total_points[3] = 0;
    s.game.all_players[1].point_table.total_points[3] = 120;
    assert_eq!(s.winner_text(), "Der Gewinner mit 120 Punkten ist Spieler 2");
    s.game.all_players[0].point_table.total_points[3] = 100;
    assert_eq!(s.winner_text(), "Der Gewinner mit 120 Punkten ist Spieler 2");
    s.game.all_players[0].point_table.total_points[3] = 130;
    assert_eq!(s.winner_text(), "Der Gewinner mit 130 Punkten ist Spieler 1");
    s.game.all_players[1].point_table.total_points[3] = 130;
    assert_eq!(s.winner_text(), "Gleichstand zwischen Spielern [0, 1], mit 130 Punkten");
    s.game.all_players[0].point_table.total_points[3] = 0;
    s.game.all_players[1].point_table.total_points[3] = 0;
    assert_eq!(s.winner_text(), "Gleichstand zwischen Spielern [0, 1], mit 0 Punkten");
}

#[test]
fn messages_of_the_opponent_are_taken_over() {
    let mut host = KniffelGame::new();
    host.host_created("ROOM42".to_string());
    host.on_remote(RemoteMessage::Other);
    assert_eq!(host.screen, Screen::WaitingForOpponent);
    host.on_remote(RemoteMessage::OpponentJoined);
    assert_eq!(host.screen, Screen::InGame);
    assert_eq!(host.multiplayer, Some(0));
    host.on_remote(RemoteMessage::OpponentJoined);
    assert_eq!(host.multiplayer, Some(0));
    host.on_remote(RemoteMessage::DiceThrow { dice: vec![Some(2), None, Some(5)], throws: Some(1) });
    let t = host.game.current_player.dice_throw;
    assert_eq!((t[0].eyes, t[1].eyes, t[2].eyes), (2, 0, 5));
    assert_eq!(host.game.current_player.number_of_throws, 1);
    host.on_remote(RemoteMessage::DiceLock { index: Some(2) });
    assert!(host.game.current_player.dice_throw[2].is_locked);
    host.on_remote(RemoteMessage::DiceLock { index: Some(7) });
    host.on_remote(RemoteMessage::Category { category: Some(4), points: None });
    assert_eq!(host.game.current_player_index, 0);
    host.on_remote(RemoteMessage::Category { category: Some(4), points: Some(5) });
    assert_eq!(host.player_buttons[0][4], Some(5));
    assert_eq!(host.game.all_players[0].point_table.points_thrown[4], Some(5));
    assert_eq!(host.game.current_player_index, 1);
}
