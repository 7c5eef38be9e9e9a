use spielesammlung::minesweeper::{
    adjacent_mines, boom, cell_without_mine, flag, flag_allowed, is_action_allowed, is_on_board, move_mine_away,
    nth_cell_without_mine, open, open_allowed, reveal_mines, set_blanks_and_numbers, ActionKind, Cell, CellContent,
    CellState, Difficulty, Game, Minesweeper,
};
use spielesammlung::minesweeper_entry;
use spielesammlung::minesweeper_ui::{neighbors, GameState, MinesweeperGame};

fn closed(content: CellContent) -> Cell {
    Cell { cell_state: CellState::Unopened, cell_content: content }
}

/// A 3x3 board with a single mine in the top left corner, numbers written.
fn corner_mine_game() -> Game {
    let mut board = vec![vec![closed(CellContent::Blank); 3]; 3];
    board[0][0] = closed(CellContent::Mine);
    let mut game = Game { board, opened_count: 0, mine_count: 1, flag_count: 1, game_over: false, game_won: false };
    set_blanks_and_numbers(&mut game);
    game
}

fn count_mines(game: &Game) -> usize {
    game.board.iter().flatten().filter(|c| c.cell_content == CellContent::Mine).count()
}

fn count_state(game: &Game, s: CellState) -> usize {
    game.board.iter().flatten().filter(|c| c.cell_state == s).count()
}

fn mines_around(game: &Game, x: usize, y: usize) -> u8 {
    let mut n = 0;
    for dy in -1i64..=1 {
        for dx in -1i64..=1 {
            if dx == 0 && dy == 0 {
                continue;
            }
            let nx = x as i64 + dx;
            let ny = y as i64 + dy;
            if nx >= 0 && ny >= 0 && (ny as usize) < game.board.len() && (nx as usize) < game.board[0].len() {
                if game.board[ny as usize][nx as usize].cell_content == CellContent::Mine {
                    n += 1;
                }
            }
        }
    }
    n
}

fn assert_numbers_consistent(game: &Game) {
    for y in 0..game.board.len() {
        for x in 0..game.board[0].len() {
            let c = game.board[y][x].cell_content;
            if c != CellContent::Mine {
                let n = mines_around(game, x, y);
                if n == 0 {
                    assert_eq!(c, CellContent::Blank);
                } else {
                    assert_eq!(c, CellContent::Number(n));
                }
            }
        }
    }
}

#[test]
fn new_game_sizes_and_mines() {
    for (d, rows, cols, mines) in [
        (Difficulty::Easy, 9, 9, 10),
        (Difficulty::Medium, 16, 16, 40),
        (Difficulty::Hard, 22, 22, 80),
        (Difficulty::Expert, 16, 30, 99),
    ] {
        let game = Game::new_game(d);
        assert_eq!(game.board.len(), rows);
        assert!(game.board.iter().all(|r| r.len() == cols));
        assert_eq!(game.mine_count, mines);
        assert_eq!(game.flag_count, mines);
        assert_eq!(count_mines(&game), mines);
        assert_eq!(count_state(&game, CellState::Unopened), rows * cols);
        assert_eq!(game.opened_count, 0);
        assert!(!game.game_over && !game.game_won);
        assert_numbers_consistent(&game);
    }
}

#[test]
fn numbers_around_a_corner_mine() {
    let game = corner_mine_game();
    assert_eq!(game.board[0][1].cell_content, CellContent::Number(1));
    assert_eq!(game.board[1][0].cell_content, CellContent::Number(1));
    assert_eq!(game.board[1][1].cell_content, CellContent::Number(1));
    assert_eq!(game.board[2][2].cell_content, CellContent::Blank);
    assert_eq!(adjacent_mines(&game, &1, &1), 1);
    assert_eq!(adjacent_mines(&game, &2, &2), 0);
}

#[test]
fn actions_on_and_off_the_board() {
    let game = corner_mine_game();
    assert!(is_on_board(&game, &ActionKind::Open(2, 2)));
    assert!(!is_on_board(&game, &ActionKind::Open(3, 0)));
    assert!(!is_on_board(&game, &ActionKind::Flag(0, 3)));
    assert!(open_allowed(&game, &ActionKind::Open(1, 1)));
    assert!(!open_allowed(&game, &ActionKind::Flag(1, 1)));
    assert!(flag_allowed(&game, &ActionKind::Flag(1, 1)));
    assert!(!flag_allowed(&game, &ActionKind::Open(1, 1)));
    assert!(is_action_allowed(&game, &ActionKind::Open(0, 0)));
}

#[test]
fn flag_sets_and_removes() {
    let mut game = corner_mine_game();
    flag(&mut game, &ActionKind::Flag(0, 0));
    assert_eq!(game.board[0][0].cell_state, CellState::Flagged);
    assert_eq!(game.flag_count, 0);
    // no flags left: a second cell stays closed
    flag(&mut game, &ActionKind::Flag(2, 2));
    assert_eq!(game.board[2][2].cell_state, CellState::Unopened);
    assert_eq!(game.flag_count, 0);
    flag(&mut game, &ActionKind::Flag(0, 0));
    assert_eq!(game.board[0][0].cell_state, CellState::Unopened);
    assert_eq!(game.flag_count, 1);
    // an open action changes nothing
    let before = game.clone();
    flag(&mut game, &ActionKind::Open(0, 0));
    assert_eq!(game, before);
}

#[test]
fn flagged_cell_cannot_be_opened() {
    let mut game = corner_mine_game();
    assert_eq!(game.apply_action(ActionKind::Flag(2, 2)), Ok(()));
    assert!(!open_allowed(&game, &ActionKind::Open(2, 2)));
    let before = game.clone();
    assert_eq!(game.apply_action(ActionKind::Open(2, 2)), Err("Action not Allowed"));
    assert_eq!(game, before);
}

#[test]
fn blank_cell_opens_its_area_and_wins() {
    let mut game = corner_mine_game();
    assert_eq!(game.apply_action(ActionKind::Open(2, 2)), Ok(()));
    // every cell without a mine is open: the game is won and the mine is shown
    assert_eq!(game.opened_count, 8);
    assert!(game.game_won);
    assert!(!game.game_over);
    assert_eq!(game.board[0][0].cell_state, CellState::Opened);
    assert_eq!(count_state(&game, CellState::Opened), 9);
    assert!(game.winner());
    // no action after the game ended
    assert_eq!(game.apply_action(ActionKind::Flag(0, 0)), Err("Action not Allowed"));
}

#[test]
fn number_cell_opens_alone() {
    let mut game = corner_mine_game();
    game.opened_count = 0;
    assert_eq!(game.apply_action(ActionKind::Open(1, 1)), Ok(()));
    assert_eq!(game.board[1][1].cell_state, CellState::Opened);
    assert_eq!(game.opened_count, 1);
    assert_eq!(count_state(&game, CellState::Opened), 1);
    assert!(!game.game_won);
    assert!(!game.winner());
}

#[test]
fn mine_after_first_move_loses() {
    let mut game = corner_mine_game();
    assert_eq!(game.apply_action(ActionKind::Open(1, 1)), Ok(()));
    assert_eq!(game.apply_action(ActionKind::Open(0, 0)), Ok(()));
    assert!(game.game_over);
    assert!(!game.game_won);
    assert_eq!(game.board[0][0].cell_state, CellState::Opened);
    assert!(!game.winner());
}

#[test]
fn first_opening_never_hits_a_mine() {
    for _ in 0..20 {
        let mut game = corner_mine_game();
        assert_eq!(game.apply_action(ActionKind::Open(0, 0)), Ok(()));
        assert!(!game.game_over);
        assert_ne!(game.board[0][0].cell_content, CellContent::Mine);
        assert_eq!(game.board[0][0].cell_state, CellState::Opened);
        assert_eq!(count_mines(&game), 1);
        assert_numbers_consistent(&game);
    }
}

#[test]
fn moving_a_mine_keeps_the_count() {
    let mut game = corner_mine_game();
    move_mine_away(&mut game, 0, 0);
    assert_ne!(game.board[0][0].cell_content, CellContent::Mine);
    assert_eq!(count_mines(&game), 1);
    assert_numbers_consistent(&game);
}

#[test]
fn cells_without_mine() {
    let game = corner_mine_game();
    assert_eq!(nth_cell_without_mine(&game, 0), (1, 0));
    assert_eq!(nth_cell_without_mine(&game, 2), (0, 1));
    assert_eq!(nth_cell_without_mine(&game, 7), (2, 2));
    for _ in 0..20 {
        let (x, y) = cell_without_mine(&game);
        assert!(x < 3 && y < 3);
        assert_ne!(game.board[y][x].cell_content, CellContent::Mine);
    }
}

#[test]
fn open_on_an_open_cell_changes_nothing() {
    let mut game = corner_mine_game();
    open(&mut game, &ActionKind::Open(1, 1));
    let before = game.clone();
    open(&mut game, &ActionKind::Open(1, 1));
    assert_eq!(game, before);
}

#[test]
fn boom_shows_all_mines() {
    let mut game = corner_mine_game();
    boom(&mut game);
    assert!(game.game_over);
    assert!(!game.game_won);
    assert_eq!(game.board[0][0].cell_state, CellState::Opened);
    assert_eq!(count_state(&game, CellState::Opened), 1);
    let mut game2 = corner_mine_game();
    reveal_mines(&mut game2);
    assert_eq!(game2.board[0][0].cell_state, CellState::Opened);
    assert!(!game2.game_over);
}

#[test]
fn winner_needs_all_safe_cells() {
    let mut game = corner_mine_game();
    game.opened_count = 7;
    assert!(!game.winner());
    assert!(!game.game_won);
    game.opened_count = 8;
    assert!(game.winner());
    assert!(game.game_won);
}

#[test]
fn neighbours_in_row_column_order() {
    assert_eq!(neighbors(0, 0, 3, 3), vec![(0, 1), (1, 0), (1, 1)]);
    assert_eq!(neighbors(1, 1, 3, 3), vec![(0, 0), (0, 1), (0, 2), (1, 0), (1, 2), (2, 0), (2, 1), (2, 2)]);
    assert_eq!(neighbors(2, 0, 3, 2), vec![(0, 1), (1, 1), (1, 2)]);
}

#[test]
fn screen_starts_with_the_choice() {
    let screen = MinesweeperGame::new();
    assert!(matches!(screen.state, GameState::ChoosingDifficulty));
    assert_eq!(screen.current_difficulty, None);
    assert!(screen.saved_highlights.is_empty());
    assert_eq!(screen.last_opened_cell, None);
}

#[test]
fn screen_plays_a_game_to_its_end() {
    let mut screen = MinesweeperGame::new();
    screen.choose_difficulty(Difficulty::Easy);
    assert_eq!(screen.current_difficulty, Some(Difficulty::Easy));
    match &screen.state {
        GameState::Playing(g) => assert_eq!(g.board.len(), 9),
        _ => panic!("a game should run"),
    }
    // a number is pressed: its neighbours are marked
    screen.playing_frame(&vec![], Some((0, 0)), false);
    assert_eq!(screen.saved_highlights, vec![(0, 1), (1, 0), (1, 1)]);
    screen.playing_frame(&vec![ActionKind::Flag(0, 0)], None, false);
    assert!(screen.saved_highlights.is_empty());
    assert_eq!(screen.last_opened_cell, None);
    // replace the game by a small one that the next click wins
    screen.state = GameState::Playing(corner_mine_game());
    screen.playing_frame(&vec![ActionKind::Open(2, 2)], None, false);
    assert_eq!(screen.last_opened_cell, Some((2, 2)));
    match &screen.state {
        GameState::WinnerOrLoserPopup { won, picked_difficulty, show_popup, .. } => {
            assert!(*won);
            assert_eq!(*picked_difficulty, Difficulty::Easy);
            assert!(*show_popup);
        }
        _ => panic!("the message box should show"),
    }
    screen.popup_frame(true, false, false);
    match &screen.state {
        GameState::WinnerOrLoserPopup { show_popup, .. } => assert!(!*show_popup),
        _ => panic!("the finished game should stay"),
    }
    screen.popup_frame(false, false, true);
    match &screen.state {
        GameState::Playing(g) => {
            assert_eq!(g.board.len(), 9);
            assert_eq!(g.opened_count, 0);
        }
        _ => panic!("a new game should run"),
    }
    screen.playing_frame(&vec![], None, true);
    assert!(matches!(screen.state, GameState::ChoosingDifficulty));
}

#[test]
fn entry_of_the_collection() {
    let mut entry = minesweeper_entry::MinesweeperGame::new();
    assert_eq!(entry.state, "Initial Minesweeper State");
    entry.make_move();
    assert_eq!(entry.state, "Minesweeper move: e4");
}
