use spielesammlung::kniffel::{
    calculate_points, change_blocked_status_dice, four_same, full_house, kniffel, large_straight,
    small_straight, three_same, throw_dice, Dice, Game, Player, PointTable, PlayerKind,
};

#[test]
fn test_new_0playersequal_error() {
    let game = Game::new(0, 0);
    assert!(game.is_err());
}

#[test]
fn test_new_2playersworks() {
    let game = Game::new(2, 0);

    let game2 = {
        Game {
            all_players: vec![Player::human(), Player::human()],
            current_player: Player {
                point_table: PointTable::new(),
                number_of_throws: 0,
                dice_throw: [Dice::new(0); 5],
                kind: PlayerKind::Human,
            },
            current_player_index: 0,
            number_of_players: 2,
        }
    };
    assert_eq!(game, Ok(game2));
}

#[test]
fn test_four_same_not() {
    let dice_throw = [
        Dice::new(2),
        Dice::new(2),
        Dice::new(6),
        Dice::new(1),
        Dice::new(1),
    ];

    assert_eq!(four_same(dice_throw), false);
}

#[test]
fn test_four_same_yes1() {
    let dice_throw = [
        Dice::new(2),
        Dice::new(2),
        Dice::new(6),
        Dice::new(2),
        Dice::new(2),
    ];
    assert_eq!(four_same(dice_throw), true);
}

#[test]
fn test_four_same_yes2() {
    let dice_throw = [
        Dice::new(1),
        Dice::new(1),
        Dice::new(1),
        Dice::new(1),
        Dice::new(2),
    ];
    assert_eq!(four_same(dice_throw), true);
}

#[test]
fn test_three_same_not() {
    let dice_throw = [
        Dice::new(1),
        Dice::new(2),
        Dice::new(6),
        Dice::new(3),
        Dice::new(2),
    ];
    assert_eq!(three_same(dice_throw), false);
}

#[test]
fn test_three_same_yes() {
    let dice_throw = [
        Dice::new(1),
        Dice::new(2),
        Dice::new(6),
        Dice::new(2),
        Dice::new(2),
    ];
    assert_eq!(three_same(dice_throw), true);
}

#[test]
fn test_kniffel() {
    let dice_throw = [
        Dice::new(1),
        Dice::new(1),
        Dice::new(1),
        Dice::new(1),
        Dice::new(1),
    ];
    assert_eq!(kniffel(dice_throw), true);
}

#[test]
fn test_kniffel_not() {
    let dice_throw = [
        Dice::new(1),
        Dice::new(1),
        Dice::new(6),
        Dice::new(1),
        Dice::new(1),
    ];
    assert_eq!(kniffel(dice_throw), false);
}

#[test]
fn test_small_straight_not() {
    let dice_throw = [
        Dice::new(1),
        Dice::new(2),
        Dice::new(6),
        Dice::new(3),
        Dice::new(2),
    ];
    assert_eq!(small_straight(dice_throw), false);
}

#[test]
fn test_small_straight_yes() {
    let dice_throw = [
        Dice::new(1),
        Dice::new(2),
        Dice::new(2),
        Dice::new(3),
        Dice::new(4),
    ];
    assert_eq!(small_straight(dice_throw), true);
}

#[test]
fn test_large_straight_not() {
    let dice_throw = [
        Dice::new(1),
        Dice::new(2),
        Dice::new(2),
        Dice::new(3),
        Dice::new(4),
    ];
    assert_eq!(large_straight(dice_throw), false);
}

#[test]
fn test_large_straight_yes() {
    let dice_throw = [
        Dice::new(1),
        Dice::new(5),
        Dice::new(2),
        Dice::new(3),
        Dice::new(4),
    ];
    assert_eq!(large_straight(dice_throw), true);
}

#[test]
fn test_full_house_not() {
    let dice_throw = [
        Dice::new(1),
        Dice::new(5),
        Dice::new(2),
        Dice::new(3),
        Dice::new(4),
    ];
    assert_eq!(full_house(dice_throw), false);
}

#[test]
fn test_full_house_yes() {
    let dice_throw = [
        Dice::new(1),
        Dice::new(5),
        Dice::new(1),
        Dice::new(5),
        Dice::new(1),
    ];
    assert_eq!(full_house(dice_throw), true);
}

#[test]
fn test_calculate_points_3x1() {
    let dice_throw = [
        Dice::new(1),
        Dice::new(5),
        Dice::new(1),
        Dice::new(1),
        Dice::new(4),
    ];

    assert_eq!(calculate_points(6, dice_throw), 12);
}

#[test]
fn test_calculate_points_is_0() {
    let dice_throw = [
        Dice::new(1),
        Dice::new(5),
        Dice::new(1),
        Dice::new(2),
        Dice::new(4),
    ];

    assert_eq!(calculate_points(6, dice_throw), 0);
}

#[test]
fn test_calculate_points_is_255() {
    let dice_throw = [
        Dice::new(1),
        Dice::new(5),
        Dice::new(1),
        Dice::new(2),
        Dice::new(4),
    ];

    assert_eq!(calculate_points(20, dice_throw), 255);
}

#[test]
fn test_calculate_points_3x6() {
    let dice_throw = [
        Dice::new(6),
        Dice::new(6),
        Dice::new(6),
        Dice::new(6),
        Dice::new(4),
    ];

    assert_eq!(calculate_points(6, dice_throw), 28);
}

#[test]
fn test_calculate_points_chance() {
    let dice_throw = [
        Dice::new(1),
        Dice::new(5),
        Dice::new(1),
        Dice::new(1),
        Dice::new(4),
    ];

    assert_eq!(calculate_points(12, dice_throw), 12);
}

#[test]
fn test_calculate_points_0x3() {
    let dice_throw = [
        Dice::new(1),
        Dice::new(5),
        Dice::new(1),
        Dice::new(1),
        Dice::new(4),
    ];

    assert_eq!(calculate_points(2, dice_throw), 0);
}

#[test]
fn test_dice_throw() {
    let mut game = Game::new(2, 0).unwrap();
    throw_dice(&mut game);

    let mut dice_roll = 0;

    for index in 0..5 {
        if game.current_player.dice_throw[index].eyes == 0 {
            dice_roll += 1;
        }
    }
    assert_eq!(dice_roll, 0);
}

#[test]
fn test_dice_throw_switch_player() {
    let mut game = Game::new(2, 0).unwrap();
    let cur_pl = game.current_player;
    throw_dice(&mut game);
    throw_dice(&mut game);
    throw_dice(&mut game);
    throw_dice(&mut game);
    let new_pl = game.current_player;

    let test = cur_pl == new_pl;

    assert!(!test);
}

#[test]
fn test_change_blocked_stat_block() {
    let mut game = Game::new(2, 0).unwrap();
    throw_dice(&mut game);
    change_blocked_status_dice(&mut game, 1);
    throw_dice(&mut game);
    let test = game.current_player.dice_throw[1].is_locked;

    assert!(test);
}

#[test]
fn small_straight_needs_four_in_a_row() {
    let dice_throw = [Dice::new(1), Dice::new(2), Dice::new(3), Dice::new(5), Dice::new(6)];
    assert_eq!(small_straight(dice_throw), false);
    assert_eq!(calculate_points(9, dice_throw), 0);
    let dice_throw = [Dice::new(6), Dice::new(3), Dice::new(5), Dice::new(4), Dice::new(3)];
    assert_eq!(small_straight(dice_throw), true);
    assert_eq!(calculate_points(9, dice_throw), 30);
}

#[test]
fn a_bot_turn_fills_one_category_within_three_throws() {
    for _ in 0..20 {
        let mut game = Game::new(0, 2).unwrap();
        let other = game.all_players[1];
        spielesammlung::kniffel_bot::bot_game_turn(&mut game);
        let p = game.current_player;
        let filled: Vec<u8> = p.point_table.points_thrown.iter().filter_map(|x| *x).collect();
        assert_eq!(filled.len(), 1);
        assert!(1 <= p.number_of_throws && p.number_of_throws <= 3);
        assert_eq!(game.all_players[0], p);
        assert_eq!(game.all_players[1], other);
        assert_eq!(p.point_table.total_points[3], filled[0]);
        assert!(p.dice_throw.iter().all(|d| d.eyes == 0 && !d.is_locked));
    }
}

#[test]
fn a_throw_shows_the_drawn_numbers_on_the_free_dice() {
    let mut game = Game::new(2, 0).unwrap();
    game.current_player.dice_throw[1] = Dice { eyes: 4, is_locked: true };
    spielesammlung::kniffel::apply_throw(&mut game, &[0, 5, 2, 3, 1]);
    let eyes: Vec<u8> = game.current_player.dice_throw.iter().map(|d| d.eyes).collect();
    assert_eq!(eyes, vec![1, 4, 3, 4, 2]);
    assert!(game.current_player.dice_throw[1].is_locked);
    assert_eq!(game.current_player.number_of_throws, 1);
    assert_eq!(game.all_players[0], game.current_player);
    game.current_player.number_of_throws = 3;
    let before = game.current_player.dice_throw;
    spielesammlung::kniffel::apply_throw(&mut game, &[5, 5, 5, 5, 5]);
    assert_eq!(game.current_player.number_of_throws, 0);
    assert_eq!(game.current_player.dice_throw, before);
}
