use spielesammlung::go::{Game, Stone};

#[test]
fn test_capture() {
    let mut game = Game::new(9);
    // B
    game.place_stone(0, 1).unwrap();
    // W
    game.place_stone(0, 0).unwrap();
    // B
    game.place_stone(1, 0).unwrap();

    // W bei 0,0
    assert_eq!(game.board.get(0, 0), None);
    assert_eq!(game.captured_white, 1);
}

#[test]
fn test_suicide_rule() {
    let mut game = Game::new(9);

    // B
    game.place_stone(0, 1).unwrap();
    // W
    game.place_stone(1, 1).unwrap();
    // B
    game.place_stone(1, 0).unwrap();

    let result = game.place_stone(0, 0);
    assert!(result.is_err());
    assert_eq!(result.err(), Some("Selbstmordzug".to_string()));
}

#[test]
fn test_ko_rule() {
    // .  . B .
    // B W . B
    // . . B .

    let mut game = Game::new(5);
    let params = [
        (2, 1), // B
        (3, 1), // W
        (1, 2), // B
        (4, 2), // W
        (2, 3), // B
        (3, 3), // W
    ];

    for (x, y) in params {
        game.place_stone(x, y).unwrap();
    }
}

#[test]
fn test_game_over() {
    let mut game = Game::new(9);
    assert!(!game.game_over);
    game.pass();
    assert!(!game.game_over);
    game.pass();
    assert!(game.game_over);
}

#[test]
fn stone_other_swaps_colours() {
    assert_eq!(Stone::Black.other(), Stone::White);
    assert_eq!(Stone::White.other(), Stone::Black);
}

#[test]
fn empty_board_scores_komi_only() {
    let game = Game::new(5);
    // half points: White has the komi of six and a half
    assert_eq!(game.calculate_score(), (0, 13));
    assert_eq!(game.calculate_material_score(), (0, 13));
}

#[test]
fn lone_stone_owns_the_board() {
    let mut game = Game::new(5);
    game.place_stone(2, 2).unwrap();
    // one stone and 24 points of territory
    assert_eq!(game.calculate_score(), (50, 13));
    assert_eq!(game.calculate_material_score(), (2, 13));
}

#[test]
fn shared_region_is_nobodys() {
    let mut game = Game::new(5);
    game.place_stone(0, 0).unwrap();
    game.place_stone(4, 4).unwrap();
    // both stones touch the one empty region
    assert_eq!(game.calculate_score(), (2, 15));
}

#[test]
fn wall_splits_territory() {
    let mut game = Game::new(3);
    // Black on the middle column, White passes
    game.place_stone(1, 0).unwrap();
    game.pass();
    game.place_stone(1, 1).unwrap();
    game.pass();
    game.place_stone(1, 2).unwrap();
    // three stones, six points of territory on both sides of the wall
    assert_eq!(game.calculate_score(), (18, 13));
    assert!(game.is_terminal() == false);
}

#[test]
fn captures_count_in_the_material_only() {
    let mut game = Game::new(9);
    game.place_stone(0, 1).unwrap();
    game.place_stone(0, 0).unwrap();
    game.place_stone(1, 0).unwrap();
    assert_eq!(game.captured_white, 1);
    let (black, white) = game.calculate_score();
    let (black_material, white_material) = game.calculate_material_score();
    // Area counting: Black's two stones and the 79 empty points around them; the
    // captured stone counts only in the material, for Black.
    assert_eq!(black, 2 * (2 + 79));
    assert_eq!(white, 13);
    assert_eq!(black_material, 2 * (2 + 1));
    assert_eq!(white_material, 13);
}

#[test]
fn a_group_starts_with_the_stone_asked_for() {
    let mut game = Game::new(9);
    game.place_stone(2, 2).unwrap();
    game.place_stone(8, 8).unwrap();
    game.place_stone(3, 2).unwrap();
    game.place_stone(8, 7).unwrap();
    game.place_stone(3, 3).unwrap();
    let group = game.board.get_group(3, 3);
    assert_eq!(group.len(), 3);
    assert_eq!(group[0], (3, 3));
    assert!(group.contains(&(2, 2)) && group.contains(&(3, 2)));
    let group = game.board.get_group(8, 7);
    assert_eq!(group[0], (8, 7));
    assert_eq!(group.len(), 2);
    assert!(game.board.get_group(0, 0).is_empty());
}
