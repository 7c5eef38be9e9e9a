use spielesammlung::go::{Game, Stone};
use spielesammlung::go_ai::{get_fast_atari_moves, get_sensible_moves};

/// The same selection, written directly on the board (a second, independent reading
/// of the rules the library implements).
fn atari_reference(game: &Game, target: Stone) -> Vec<(usize, usize)> {
    let size = game.board.size;
    let mut visited = vec![false; size * size];
    let mut moves = Vec::new();
    for y in 0..size {
        for x in 0..size {
            let idx = y * size + x;
            if visited[idx] || game.board.grid[idx] != Some(target) {
                continue;
            }
            let mut stack = vec![(x, y)];
            visited[idx] = true;
            let mut liberties: Vec<(usize, usize)> = Vec::new();
            let mut head = 0;
            while head < stack.len() {
                let (cx, cy) = stack[head];
                head += 1;
                for (nx, ny) in game.board.get_neighbors(cx, cy) {
                    let n_idx = ny * size + nx;
                    match game.board.grid[n_idx] {
                        None => {
                            if !liberties.contains(&(nx, ny)) {
                                liberties.push((nx, ny));
                            }
                        }
                        Some(s) if s == target => {
                            if !visited[n_idx] {
                                visited[n_idx] = true;
                                stack.push((nx, ny));
                            }
                        }
                        _ => {}
                    }
                }
            }
            if liberties.len() == 1 {
                moves.push(liberties[0]);
            }
        }
    }
    moves
}

fn sensible_reference(game: &Game) -> Vec<(usize, usize)> {
    let size = game.board.size;
    let turn = game.current_turn;
    let opponent = turn.other();
    let mut moves = Vec::new();
    for m in atari_reference(game, opponent).into_iter().chain(atari_reference(game, turn)) {
        if !moves.contains(&m) {
            moves.push(m);
        }
    }
    let stone_count = game.board.grid.iter().filter(|s| s.is_some()).count();
    if stone_count < 8 {
        let stars = [(2, 2), (6, 2), (2, 6), (6, 6), (4, 4), (3, 3), (15, 3), (3, 15), (15, 15)];
        for m in stars {
            if m.0 < size && m.1 < size && !moves.contains(&m) && game.board.get(m.0, m.1).is_none() {
                moves.push(m);
            }
        }
        if !moves.is_empty() {
            return moves;
        }
    }
    let mut candidates = Vec::new();
    for (x, y) in game.get_empty_points() {
        if moves.contains(&(x, y)) {
            continue;
        }
        let mut score = 0;
        for (nx, ny) in game.board.get_neighbors(x, y) {
            if let Some(s) = game.board.get(nx, ny) {
                score += if s == opponent { 50 } else { 20 };
            }
        }
        if let Some((lx, ly)) = game.last_move {
            let dist = (x as i32 - lx as i32).abs() + (y as i32 - ly as i32).abs();
            if dist <= 2 {
                score += 30;
            }
        }
        if score > 0 {
            candidates.push(((x, y), score));
        }
    }
    candidates.sort_by(|a, b| b.1.cmp(&a.1));
    for (m, _) in candidates.into_iter().take(12) {
        moves.push(m);
    }
    if moves.is_empty() {
        return game.get_empty_points().into_iter().take(5).collect();
    }
    moves
}

/// A small deterministic pseudo-random sequence for building positions.
struct Lcg(u64);

impl Lcg {
    fn next(&mut self, bound: usize) -> usize {
        self.0 = self.0.wrapping_mul(6364136223846793005).wrapping_add(1442695040888963407);
        ((self.0 >> 33) as usize) % bound
    }
}

#[test]
fn empty_board_suggests_the_star_points() {
    let game = Game::new(19);
    assert_eq!(
        get_sensible_moves(&game),
        vec![(2, 2), (6, 2), (2, 6), (6, 6), (4, 4), (3, 3), (15, 3), (3, 15), (15, 15)]
    );
}

#[test]
fn small_board_keeps_the_star_points_on_it() {
    let game = Game::new(9);
    assert_eq!(get_sensible_moves(&game), vec![(2, 2), (6, 2), (2, 6), (6, 6), (4, 4), (3, 3)]);
}

#[test]
fn a_stone_in_atari_comes_first() {
    let mut game = Game::new(5);
    game.place_stone(1, 0).unwrap();
    game.place_stone(0, 0).unwrap();
    assert_eq!(get_fast_atari_moves(&game, Stone::White), vec![(0, 1)]);
    assert!(get_fast_atari_moves(&game, Stone::Black).is_empty());
    assert_eq!(get_sensible_moves(&game), vec![(0, 1), (2, 2), (4, 4), (3, 3)]);
}

#[test]
fn two_groups_sharing_their_last_liberty_both_count() {
    // White stones on (0,0) and (2,0), Black on (0,1), (2,1), (3,0): both white stones
    // have (1,0) as their only liberty.
    let mut game = Game::new(5);
    game.place_stone(0, 1).unwrap();
    game.place_stone(0, 0).unwrap();
    game.place_stone(2, 1).unwrap();
    game.place_stone(2, 0).unwrap();
    game.place_stone(3, 0).unwrap();
    assert_eq!(get_fast_atari_moves(&game, Stone::White), vec![(1, 0), (1, 0)]);
}

#[test]
fn full_board_has_no_move() {
    let mut game = Game::new(1);
    game.board.grid[0] = Some(Stone::Black);
    assert!(get_sensible_moves(&game).is_empty());
}

#[test]
fn sensible_moves_match_the_rules_in_random_games() {
    for seed in 0..40u64 {
        let mut rng = Lcg(seed + 1);
        let size = [5, 7, 9, 19][(seed % 4) as usize];
        let mut game = Game::new(size);
        for _ in 0..(10 + rng.next(60)) {
            let x = rng.next(size);
            let y = rng.next(size);
            if rng.next(20) == 0 {
                game.pass();
            } else {
                let _ = game.place_stone(x, y);
            }
            assert_eq!(get_fast_atari_moves(&game, Stone::Black), atari_reference(&game, Stone::Black));
            assert_eq!(get_fast_atari_moves(&game, Stone::White), atari_reference(&game, Stone::White));
            assert_eq!(get_sensible_moves(&game), sensible_reference(&game));
        }
    }
}
