use vstd::prelude::*;
use crate::minesweeper::{
    ActionKind, Difficulty, Game, Minesweeper, valid, playing, layout_of, board_height, board_width, applied,
};

verus! {

/// The offset of the `k`-th cell of the 3x3 block around a cell, read row by row.
pub open spec fn block_offset(k: int) -> (int, int) {
    (k % 3 - 1, k / 3 - 1)
}

/// The cells around `(x, y)` on a board of `width` columns and `height` rows among the
/// first `k` of its 3x3 block (the cell itself left out), each as (row, column).
pub open spec fn neighbors_upto(x: int, y: int, width: int, height: int, k: int) -> Seq<(usize, usize)>
    decreases k,
{
    if k <= 0 {
        Seq::empty()
    } else {
        let rest = neighbors_upto(x, y, width, height, k - 1);
        let d = block_offset(k - 1);
        let nx = x + d.0;
        let ny = y + d.1;
        if k - 1 != 4 && 0 <= nx < width && 0 <= ny < height {
            rest.push((ny as usize, nx as usize))
        } else {
            rest
        }
    }
}

/// The cells around `(x, y)` that lie on a board of `width` columns and `height` rows,
/// each as (row, column), row by row.
pub fn neighbors(x: usize, y: usize, width: usize, height: usize) -> (r: Vec<(usize, usize)>)
    requires
        (x as int) < isize::MAX,
        (y as int) < isize::MAX,
    ensures
        r@ == neighbors_upto(x as int, y as int, width as int, height as int, 9),
{
    let mut neighbor_coords: Vec<(usize, usize)> = Vec::new();
    let mut k: usize = 0;
    while k < 9
        invariant
            0 <= k <= 9,
            (x as int) < isize::MAX,
            (y as int) < isize::MAX,
            neighbor_coords@ == neighbors_upto(x as int, y as int, width as int, height as int, k as int),
        decreases 9 - k,
    {
        if k != 4 {
            let dx: isize = (k % 3) as isize - 1;
            let dy: isize = (k / 3) as isize - 1;
            let nx = x as isize + dx;
            let ny = y as isize + dy;
            if nx >= 0 && ny >= 0 {
                let nx = nx as usize;
                let ny = ny as usize;
                if ny < height && nx < width {
                    neighbor_coords.push((ny, nx));
                }
            }
        }
        k = k + 1;
    }
    neighbor_coords
}

/// What the Minesweeper screen shows: the choice of difficulty, a running game, or a
/// finished game with its message box.
pub enum GameState {
    ChoosingDifficulty,
    Playing(Game),
    WinnerOrLoserPopup { won: bool, picked_difficulty: Difficulty, game: Game, show_popup: bool },
}

/// The state of the screen is sound: every game it holds is valid, and a finished game
/// is shown only once it is lost or won, with `won` telling which.
pub open spec fn screen_ok(s: GameState) -> bool {
    match s {
        GameState::ChoosingDifficulty => true,
        GameState::Playing(g) => valid(g),
        GameState::WinnerOrLoserPopup { won, game, .. } => valid(game) && won == game.game_won && !playing(game),
    }
}

/// A new game of difficulty `d` as `new_game` makes it.
pub open spec fn fresh_game(g: Game, d: Difficulty) -> bool {
    &&& valid(g)
    &&& playing(g)
    &&& g.opened_count == 0
    &&& board_height(g) == layout_of(d).0
    &&& board_width(g) == layout_of(d).1
    &&& g.mine_count == layout_of(d).2
}

/// The Minesweeper screen: its state, the difficulty picked, the cells marked around a
/// pressed number, and the cell opened last, as (row, column).
pub struct MinesweeperGame {
    pub state: GameState,
    pub current_difficulty: Option<Difficulty>,
    pub saved_highlights: Vec<(usize, usize)>,
    pub last_opened_cell: Option<(usize, usize)>,
}

impl MinesweeperGame {
    pub fn new() -> (r: Self)
        ensures
            r.state is ChoosingDifficulty,
            r.current_difficulty is None,
            r.saved_highlights@.len() == 0,
            r.last_opened_cell is None,
    {
        MinesweeperGame {
            state: GameState::ChoosingDifficulty,
            current_difficulty: None,
            saved_highlights: Vec::new(),
            last_opened_cell: None,
        }
    }

    /// The player picked a difficulty: a new game of it starts.
    pub fn choose_difficulty(&mut self, difficulty: Difficulty)
        ensures
            final(self).current_difficulty == Some(difficulty),
            final(self).state matches GameState::Playing(g) && fresh_game(g, difficulty),
            final(self).saved_highlights@ == old(self).saved_highlights@,
            final(self).last_opened_cell == old(self).last_opened_cell,
    {
        self.current_difficulty = Some(difficulty);
        self.state = GameState::Playing(Game::new_game(difficulty));
    }

    /// One frame of a running game: the clicks on cells are applied in order (an open
    /// click remembers its cell as the last opened one, refused actions change nothing);
    /// the cells around a pressed number are marked (no marks when none is pressed); then
    /// "back" returns to the choice of difficulty, and a lost or won game goes to its
    /// message box.
    pub fn playing_frame(&mut self, clicks: &Vec<ActionKind>, pressed_number: Option<(usize, usize)>, back: bool)
        requires
            old(self).state matches GameState::Playing(g) && valid(g),
            pressed_number matches Some(p) ==> (p.0 as int) < isize::MAX && (p.1 as int) < isize::MAX,
        ensures
            screen_ok(final(self).state),
            final(self).current_difficulty == old(self).current_difficulty,
            final(self).last_opened_cell == last_open_click(clicks@, clicks@.len() as int),
            pressed_number is None ==> final(self).saved_highlights@.len() == 0,
            pressed_number matches Some(p) ==> final(self).saved_highlights@ == neighbors_upto(
                p.0 as int, p.1 as int, board_width(old(self).state->Playing_0), board_height(old(self).state->Playing_0), 9),
            back ==> final(self).state is ChoosingDifficulty,
            !back ==> exists|gs: Seq<Game>| #[trigger] clicks_applied(old(self).state->Playing_0, clicks@, gs)
                && match final(self).state {
                    GameState::Playing(g) => g == gs.last() && playing(g),
                    GameState::WinnerOrLoserPopup { won, picked_difficulty, game, show_popup } =>
                        game == gs.last() && !playing(game) && won == game.game_won && show_popup
                        && picked_difficulty == match old(self).current_difficulty {
                            Some(d) => d,
                            None => Difficulty::Easy,
                        },
                    GameState::ChoosingDifficulty => false,
                },
            !back ==> match final(self).state {
                GameState::Playing(g) => same_frame(g, old(self).state->Playing_0),
                GameState::WinnerOrLoserPopup { game, .. } => same_frame(game, old(self).state->Playing_0),
                GameState::ChoosingDifficulty => false,
            },
    {
        let mut state = GameState::ChoosingDifficulty;
        std::mem::swap(&mut state, &mut self.state);
        let mut game = match state {
            GameState::Playing(g) => g,
            _ => {
                proof {
                    assert(false);
                }
                return;
            },
        };
        let ghost g0 = game;
        let ghost mut gs: Seq<Game> = seq![game];
        let mut latest_clicked_cell: Option<(usize, usize)> = None;
        let mut i: usize = 0;
        while i < clicks.len()
            invariant
                0 <= i <= clicks@.len(),
                valid(game),
                same_frame(game, g0),
                latest_clicked_cell == last_open_click(clicks@, i as int),
                gs.len() == i + 1,
                gs[0] == g0,
                gs.last() == game,
                forall|j: int| 0 <= j < i ==> applied(gs[j], #[trigger] clicks@[j], gs[j + 1]),
            decreases clicks@.len() - i,
        {
            let a = clicks[i];
            if let ActionKind::Open(x, y) = a {
                latest_clicked_cell = Some((y, x));
            }
            let _ = game.apply_action(a);
            proof {
                gs = gs.push(game);
            }
            i = i + 1;
        }
        assert(clicks_applied(g0, clicks@, gs));
        self.last_opened_cell = latest_clicked_cell;
        if let Some((px, py)) = pressed_number {
            let w = game.board[0].len();
            let h = game.board.len();
            self.saved_highlights = neighbors(px, py, w, h);
        } else {
            self.saved_highlights.clear();
        }
        let game_ended = game.game_over || game.game_won;
        if back {
            self.state = GameState::ChoosingDifficulty;
        } else if game_ended {
            let picked = match self.current_difficulty {
                Some(d) => d,
                None => Difficulty::Easy,
            };
            self.state = GameState::WinnerOrLoserPopup { won: game.game_won, picked_difficulty: picked, game: game, show_popup: true };
        } else {
            self.state = GameState::Playing(game);
        }
    }

    /// One frame of the message box after a game: "other difficulty" returns to the
    /// choice, "try again" starts a new game of the same difficulty, "show board" closes
    /// the box and keeps the finished game on screen.
    pub fn popup_frame(&mut self, close_popup: bool, re_choose_difficulty: bool, retry: bool)
        requires
            old(self).state is WinnerOrLoserPopup,
            screen_ok(old(self).state),
        ensures
            screen_ok(final(self).state),
            final(self).current_difficulty == old(self).current_difficulty,
            re_choose_difficulty ==> final(self).state is ChoosingDifficulty,
            !re_choose_difficulty && retry ==> (final(self).state matches GameState::Playing(g)
                && fresh_game(g, old(self).state->picked_difficulty)),
            !re_choose_difficulty && !retry && close_popup ==> (final(self).state matches
                GameState::WinnerOrLoserPopup { won, picked_difficulty, game, show_popup } && !show_popup
                && won == old(self).state->won && picked_difficulty == old(self).state->picked_difficulty
                && game == old(self).state->game),
            !re_choose_difficulty && !retry && !close_popup ==> final(self).state == old(self).state,
    {
        if re_choose_difficulty {
            self.state = GameState::ChoosingDifficulty;
            return;
        }
        let mut state = GameState::ChoosingDifficulty;
        std::mem::swap(&mut state, &mut self.state);
        match state {
            GameState::WinnerOrLoserPopup { won, picked_difficulty, game, show_popup } => {
                if retry {
                    self.state = GameState::Playing(Game::new_game(picked_difficulty));
                } else if close_popup {
                    self.state = GameState::WinnerOrLoserPopup { won, picked_difficulty, game, show_popup: false };
                } else {
                    self.state = GameState::WinnerOrLoserPopup { won, picked_difficulty, game, show_popup };
                }
            },
            other => {
                self.state = other;
            },
        }
    }
}

/// `gs` runs from `g0` through the games that the `clicks` give in turn: each game is
/// what its click, applied to the game before, may give.
pub open spec fn clicks_applied(g0: Game, clicks: Seq<ActionKind>, gs: Seq<Game>) -> bool {
    &&& gs.len() == clicks.len() + 1
    &&& gs[0] == g0
    &&& forall|j: int| 0 <= j < clicks.len() ==> applied(gs[j], #[trigger] clicks[j], gs[j + 1])
}

/// `g` has the board size and the number of mines of `g0`.
pub open spec fn same_frame(g: Game, g0: Game) -> bool {
    &&& board_height(g) == board_height(g0)
    &&& board_width(g) == board_width(g0)
    &&& g.mine_count == g0.mine_count
}

/// The cell, as (row, column), of the last open click among the first `n` clicks.
pub open spec fn last_open_click(clicks: Seq<ActionKind>, n: int) -> Option<(usize, usize)>
    decreases n,
{
    if n <= 0 {
        None
    } else {
        match clicks[n - 1] {
            ActionKind::Open(x, y) => Some((y, x)),
            ActionKind::Flag(_, _) => last_open_click(clicks, n - 1),
        }
    }
}

} // verus!
