use vstd::prelude::*;
use crate::go::{Game, Stone, Point, on_board, move_allowed, board_after_move, liberty_set, move_taken_count, seen_views, lemma_move_taken_bound, lemma_off_board_refused, opponent};
use crate::go_score::{score_black, score_white};
use crate::text::{half_points, half_points_text, decimal, decimal_text};

verus! {

/// The screens of a Go session.
#[derive(PartialEq, Eq, Structural, Debug, Clone, Copy)]
pub enum GoGameState {
    Menu,
    WaitingForOpponent,
    Playing,
}

/// The side of the board length of every game of a session.
pub const BOARD_SIZE: usize = 19;

/// A Go session: the game on the board, the line shown to the players, whether the
/// computer answers each move, the screen, the room and the colour of this side in a
/// game over the network.
pub struct GoGame {
    pub game: Game,
    pub status_message: String,
    pub ai_enabled: bool,
    pub game_state: GoGameState,
    pub room_key: String,
    pub multiplayer: bool,
    pub my_color: Option<Stone>,
}

/// What the opponent's side sends over the network, as far as a Go session reads it.
pub enum RemoteMessage {
    /// The opponent placed a stone on `(x, y)`.
    Move { x: u64, y: u64 },
    Pass,
    Restart,
    /// Someone joined this side's room.
    OpponentJoined,
    /// The opponent left the room.
    OpponentLeft,
    /// Anything else.
    Other,
}

/// How a click on the board was taken.
#[derive(PartialEq, Eq, Structural, Debug, Clone, Copy)]
pub enum BoardClick {
    /// Not this side's turn, the game is over, or the click missed the board.
    Ignored,
    /// The move broke a rule; the status line says which.
    Refused,
    /// The stone was placed. `send_move`: tell the opponent over the network;
    /// `computer_replies`: the computer is to answer now.
    Played { x: usize, y: usize, send_move: bool, computer_replies: bool },
}

/// How a colour is written in the status line.
pub open spec fn stone_name(s: Stone) -> Seq<char> {
    match s {
        Stone::Black => "Black"@,
        Stone::White => "White"@,
    }
}

fn stone_name_text(s: Stone) -> (r: &'static str)
    ensures
        r@ == stone_name(s),
{
    match s {
        Stone::Black => "Black",
        Stone::White => "White",
    }
}

/// "<colour> ist am Zug." for the player to move.
pub open spec fn to_move_line(s: Stone) -> Seq<char> {
    stone_name(s) + " ist am Zug."@
}

/// The captures counters can take any move's captures.
pub open spec fn room_for_captures(g: Game) -> bool {
    &&& g.captured_black + 4 * g.board.grid@.len() <= usize::MAX
    &&& g.captured_white + 4 * g.board.grid@.len() <= usize::MAX
}

/// This side may move now.
pub open spec fn my_turn(s: GoGame) -> bool {
    if s.multiplayer { s.my_color == Some(s.game.current_turn) } else { true }
}

/// `g1` is `g0` after the player to move put a stone on `p`: the board with the stone
/// and without the groups it took, the taken stones counted for the mover, the new
/// position remembered, the turn passed on, the pass count reset, the move recorded.
pub open spec fn placed(g0: Game, g1: Game, p: Point) -> bool {
    let after = board_after_move(g0.board@, p, g0.current_turn);
    let n = move_taken_count(g0.board@, p, g0.current_turn);
    &&& g1.board@ == after
    &&& g0.current_turn == Stone::Black ==> g1.captured_white == g0.captured_white + n
        && g1.captured_black == g0.captured_black
    &&& g0.current_turn == Stone::White ==> g1.captured_black == g0.captured_black + n
        && g1.captured_white == g0.captured_white
    &&& seen_views(g1.previous_states@) == seen_views(g0.previous_states@).push(after.1)
    &&& g1.current_turn == opponent(g0.current_turn)
    &&& g1.consecutive_passes == 0
    &&& g1.last_move == Some(p)
    &&& g1.history@ == g0.history@.push(p)
    &&& g1.game_over == g0.game_over
}

/// Why a move of the player to move on `p` is refused.
pub open spec fn refusal(g: Game, p: Point) -> Seq<char> {
    let after = board_after_move(g.board@, p, g.current_turn);
    if g.game_over {
        "Spiel ist zu Ende"@
    } else if g.board.at(p) is Some {
        "Punkt ist nicht frei"@
    } else if liberty_set(after, p).len() == 0 {
        "Selbstmordzug"@
    } else {
        "Ko Regelverstoß"@
    }
}

/// The score line once the game is over.
pub open spec fn game_over_line(g: Game) -> Seq<char> {
    "Spiel vorbei! Schwarz "@ + half_points(score_black(g) as nat) + " — Weiß "@ + half_points(score_white(g) as nat)
}

impl GoGame {
    /// The board has the session's size.
    pub open spec fn wf(&self) -> bool {
        &&& self.game.board.wf()
        &&& self.game.board.size == BOARD_SIZE
    }

    /// A fresh game on the menu screen, Black to move.
    pub fn new() -> (r: GoGame)
        ensures
            r.wf(),
            r.status_message@ == "Spiel gestartet. Schwarz ist am Zug."@,
            !r.ai_enabled,
            r.game_state == GoGameState::Menu,
            r.room_key@ == Seq::<char>::empty(),
            !r.multiplayer,
            r.my_color is None,
            r.game.current_turn == Stone::Black,
            r.game.board@.1 == Seq::new(361, |i: int| None::<Stone>),
            !r.game.game_over,
            r.game.captured_black == 0,
            r.game.captured_white == 0,
    {
        let game = Game::new(BOARD_SIZE);
        assert(game.board@.1 =~= Seq::new(361, |i: int| None::<Stone>));
        GoGame {
            game,
            status_message: "Spiel gestartet. Schwarz ist am Zug.".to_owned(),
            ai_enabled: false,
            game_state: GoGameState::Menu,
            room_key: String::new(),
            multiplayer: false,
            my_color: None,
        }
    }

    pub fn set_room_key_text(&mut self, text: String)
        ensures
            final(self).room_key == text,
            final(self).game == old(self).game,
            final(self).status_message == old(self).status_message,
            final(self).game_state == old(self).game_state,
            final(self).multiplayer == old(self).multiplayer,
            final(self).my_color == old(self).my_color,
            final(self).ai_enabled == old(self).ai_enabled,
    {
        self.room_key = text;
    }

    /// The opponent came into the room: the game starts.
    pub fn opponent_joined(&mut self)
        ensures
            joined(*old(self), *final(self)),
    {
        self.game_state = GoGameState::Playing;
        self.status_message = "Gegner beigetreten! Schwarz ist am Zug.".to_owned();
    }

    /// "Spiel starten" on the waiting screen.
    pub fn start_clicked(&mut self)
        ensures
            *final(self) == (GoGame { game_state: GoGameState::Playing, ..*old(self) }),
    {
        self.game_state = GoGameState::Playing;
    }

    /// A local game was chosen: the board is shown. The player count passes through.
    pub fn local_button_clicked(&mut self, player_counter: Option<u16>) -> (r: Option<u16>)
        ensures
            r == player_counter,
            *final(self) == (GoGame { game_state: GoGameState::Playing, ..*old(self) }),
    {
        self.game_state = GoGameState::Playing;
        player_counter
    }

    /// A game against the computer was chosen; the level passes through unchanged.
    pub fn bot_button_clicked(&self, bot_level: Option<u16>) -> (r: Option<u16>)
        ensures
            r == bot_level,
    {
        bot_level
    }

    /// This side created a room on the server: it plays Black and waits for the
    /// opponent on a fresh board.
    pub fn host_created(&mut self, room_id: String)
        ensures
            final(self).wf(),
            final(self).room_key == room_id,
            final(self).multiplayer,
            final(self).my_color == Some(Stone::Black),
            final(self).game_state == GoGameState::WaitingForOpponent,
            final(self).status_message@ == "Schwarz ist am Zug."@,
            final(self).game.current_turn == Stone::Black,
            final(self).game.board@.1 == Seq::new(361, |i: int| None::<Stone>),
            !final(self).game.game_over,
            final(self).game.captured_black == 0,
            final(self).game.captured_white == 0,
            final(self).ai_enabled == old(self).ai_enabled,
    {
        self.room_key = room_id;
        self.multiplayer = true;
        self.my_color = Some(Stone::Black);
        self.game_state = GoGameState::WaitingForOpponent;
        self.game = Game::new(BOARD_SIZE);
        assert(self.game.board@.1 =~= Seq::new(361, |i: int| None::<Stone>));
        self.status_message = "Schwarz ist am Zug.".to_owned();
    }

    /// This side joined a room: it plays White on a fresh board.
    pub fn start_multiplayer_game(&mut self)
        ensures
            final(self).wf(),
            final(self).multiplayer,
            final(self).my_color == Some(Stone::White),
            final(self).game_state == GoGameState::Playing,
            final(self).status_message@ == "Multiplayer gestartet. Schwarz ist am Zug."@,
            final(self).game.current_turn == Stone::Black,
            final(self).game.board@.1 == Seq::new(361, |i: int| None::<Stone>),
            !final(self).game.game_over,
            final(self).game.captured_black == 0,
            final(self).game.captured_white == 0,
            final(self).room_key == old(self).room_key,
            final(self).ai_enabled == old(self).ai_enabled,
    {
        self.multiplayer = true;
        self.my_color = Some(Stone::White);
        self.game_state = GoGameState::Playing;
        self.game = Game::new(BOARD_SIZE);
        assert(self.game.board@.1 =~= Seq::new(361, |i: int| None::<Stone>));
        self.status_message = "Multiplayer gestartet. Schwarz ist am Zug.".to_owned();
    }

    /// Plays on `(x, y)` for the player to move, as the game's rules allow.
    fn play(&mut self, x: usize, y: usize) -> (r: Result<(), String>)
        requires
            old(self).wf(),
            room_for_captures(old(self).game),
        ensures
            final(self).wf(),
            final(self).status_message == old(self).status_message,
            final(self).ai_enabled == old(self).ai_enabled,
            final(self).game_state == old(self).game_state,
            final(self).room_key == old(self).room_key,
            final(self).multiplayer == old(self).multiplayer,
            final(self).my_color == old(self).my_color,
            r is Ok <==> move_allowed(old(self).game, (x, y)),
            r matches Err(e) ==> final(self).game == old(self).game && e@ == refusal(old(self).game, (x, y)),
            r is Ok ==> placed(old(self).game, final(self).game, (x, y)),
    {
        proof {
            if on_board(self.game.board.size, (x, y)) {
                lemma_move_taken_bound(self.game.board@, (x, y), self.game.current_turn);
            } else {
                lemma_off_board_refused(self.game, (x, y));
            }
        }
        let r = self.game.place_stone(x, y);
        r
    }

    /// A click on the board point `(x, y)` (the coordinates as rounded from the pointer,
    /// so they may lie off the board).
    pub fn board_clicked(&mut self, x: i64, y: i64) -> (r: BoardClick)
        requires
            old(self).wf(),
            room_for_captures(old(self).game),
        ensures
            final(self).wf(),
            final(self).ai_enabled == old(self).ai_enabled,
            final(self).game_state == old(self).game_state,
            final(self).room_key == old(self).room_key,
            final(self).multiplayer == old(self).multiplayer,
            final(self).my_color == old(self).my_color,
            ({
                let s = *old(self);
                let on = 0 <= x < BOARD_SIZE && 0 <= y < BOARD_SIZE;
                if s.game.game_over || !my_turn(s) || !on {
                    &&& r == BoardClick::Ignored
                    &&& *final(self) == *old(self)
                } else if move_allowed(s.game, (x as usize, y as usize)) {
                    &&& r == BoardClick::Played {
                        x: x as usize,
                        y: y as usize,
                        send_move: s.multiplayer,
                        computer_replies: s.ai_enabled && !s.multiplayer && !final(self).game.game_over,
                    }
                    &&& placed(s.game, final(self).game, (x as usize, y as usize))
                    &&& final(self).status_message@ == "Zug akzeptiert. "@ + to_move_line(final(self).game.current_turn)
                } else {
                    &&& r == BoardClick::Refused
                    &&& final(self).game == s.game
                    &&& final(self).status_message@ == "Ungültiger Zug: "@ + refusal(s.game, (x as usize, y as usize))
                }
            }),
    {
        let on = 0 <= x && x < BOARD_SIZE as i64 && 0 <= y && y < BOARD_SIZE as i64;
        let mine = if self.multiplayer {
            match self.my_color {
                Some(c) => c == self.game.current_turn,
                None => false,
            }
        } else {
            true
        };
        if self.game.game_over || !mine || !on {
            return BoardClick::Ignored;
        }
        let px = x as usize;
        let py = y as usize;
        match self.play(px, py) {
            Ok(()) => {
                let mut line = "Zug akzeptiert. ".to_owned();
                line.append(stone_name_text(self.game.current_turn));
                line.append(" ist am Zug.");
                self.status_message = line;
                BoardClick::Played {
                    x: px,
                    y: py,
                    send_move: self.multiplayer,
                    computer_replies: self.ai_enabled && !self.multiplayer && !self.game.game_over,
                }
            },
            Err(e) => {
                let mut line = "Ungültiger Zug: ".to_owned();
                line.append(e.as_str());
                assert(line@ == "Ungültiger Zug: "@ + e@);
                self.status_message = line;
                BoardClick::Refused
            },
        }
    }

    /// The computer's answer: a point to play on, or `None` to pass. Returns whether the
    /// computer's stone was placed.
    pub fn computer_moved(&mut self, mv: Option<Point>) -> (r: bool)
        requires
            old(self).wf(),
            room_for_captures(old(self).game),
            old(self).game.consecutive_passes < usize::MAX,
        ensures
            final(self).wf(),
            final(self).ai_enabled == old(self).ai_enabled,
            final(self).game_state == old(self).game_state,
            final(self).room_key == old(self).room_key,
            final(self).multiplayer == old(self).multiplayer,
            final(self).my_color == old(self).my_color,
            match mv {
                Some(p) => if move_allowed(old(self).game, p) {
                    &&& r
                    &&& placed(old(self).game, final(self).game, p)
                    &&& final(self).status_message@ == "AI spielt ("@ + decimal(p.0 as nat) + ", "@ + decimal(p.1 as nat)
                        + "). "@ + to_move_line(final(self).game.current_turn)
                } else {
                    &&& !r
                    &&& final(self).game == old(self).game
                    &&& final(self).status_message@ == "AI Zug ungültig: "@ + refusal(old(self).game, p)
                },
                None => {
                    &&& !r
                    &&& final(self).game.consecutive_passes == old(self).game.consecutive_passes + 1
                    &&& final(self).game.current_turn == opponent(old(self).game.current_turn)
                    &&& final(self).game.board == old(self).game.board
                    &&& final(self).status_message@ == "AI passt."@
                },
            },
    {
        match mv {
            Some((x, y)) => match self.play(x, y) {
                Ok(()) => {
                    let mut line = "AI spielt (".to_owned();
                    line.append(decimal_text(x as u128).as_str());
                    line.append(", ");
                    line.append(decimal_text(y as u128).as_str());
                    line.append("). ");
                    line.append(stone_name_text(self.game.current_turn));
                    line.append(" ist am Zug.");
                    self.status_message = line;
                    true
                },
                Err(e) => {
                    let mut line = "AI Zug ungültig: ".to_owned();
                    line.append(e.as_str());
                    self.status_message = line;
                    false
                },
            },
            None => {
                self.game.pass();
                self.status_message = "AI passt.".to_owned();
                false
            },
        }
    }

    /// "Passen": the player to move passes; after the second pass in a row the score is
    /// shown. Returns whether the pass is to be sent to the opponent (in a game over the
    /// network).
    pub fn pass_clicked(&mut self) -> (r: bool)
        requires
            old(self).wf(),
            old(self).game.consecutive_passes < usize::MAX,
        ensures
            r == old(self).multiplayer,
            passed(*old(self), *final(self)),
    {
        self.game.pass();
        if self.game.game_over {
            let (b, w) = self.game.calculate_score();
            let mut line = "Spiel vorbei! Schwarz ".to_owned();
            line.append(half_points_text(b).as_str());
            line.append(" — Weiß ");
            line.append(half_points_text(w).as_str());
            self.status_message = line;
        } else {
            let mut line = "Gepasst. ".to_owned();
            line.append(stone_name_text(self.game.current_turn));
            line.append(" ist am Zug.");
            self.status_message = line;
            assert(self.status_message@ =~= "Gepasst. "@ + to_move_line(self.game.current_turn));
        }
        self.multiplayer
    }

    /// "Neustarten": a fresh board, Black to move. Returns whether the restart is to be
    /// sent to the opponent (in a game over the network).
    pub fn restart_clicked(&mut self) -> (r: bool)
        ensures
            r == old(self).multiplayer,
            restarted(*old(self), *final(self)),
    {
        self.game = Game::new(BOARD_SIZE);
        assert(self.game.board@.1 =~= Seq::new(361, |i: int| None::<Stone>));
        self.status_message = "Spiel neugestartet. Schwarz ist am Zug.".to_owned();
        self.multiplayer
    }

    /// The opponent left the game over the network: back to the menu, where a new game
    /// can be chosen; the board stays as it was.
    pub fn opponent_left(&mut self)
        ensures
            left_to_menu(*old(self), *final(self)),
    {
        self.game_state = GoGameState::Menu;
        self.multiplayer = false;
        self.my_color = None;
    }

    /// The opponent's move arrived over the network: it is played as the rules allow
    /// (a refused move changes nothing), and the status names the player to move.
    pub fn remote_move(&mut self, x: u64, y: u64)
        requires
            old(self).wf(),
            room_for_captures(old(self).game),
        ensures
            remote_moved(*old(self), *final(self), x, y),
    {
        let _ = self.play(x as usize, y as usize);
        let mut line = stone_name_text(self.game.current_turn).to_owned();
        line.append(" ist am Zug.");
        self.status_message = line;
    }

    /// A message of the opponent over the network: a move is played as `remote_move`
    /// says, a pass as `pass_clicked` says, a restart as `restart_clicked` says; the
    /// opponent's arrival starts the game while this side waits (as `opponent_joined`
    /// says) and changes nothing otherwise; the opponent leaving returns to the menu
    /// (`opponent_left`); any other message changes nothing.
    pub fn on_remote(&mut self, m: RemoteMessage)
        requires
            old(self).wf(),
            m is Move ==> room_for_captures(old(self).game),
            m is Pass ==> old(self).game.consecutive_passes < usize::MAX,
        ensures
            match m {
                RemoteMessage::Move { x, y } => remote_moved(*old(self), *final(self), x, y),
                RemoteMessage::Pass => passed(*old(self), *final(self)),
                RemoteMessage::Restart => restarted(*old(self), *final(self)),
                RemoteMessage::OpponentJoined => if old(self).game_state == GoGameState::WaitingForOpponent {
                    joined(*old(self), *final(self))
                } else {
                    *final(self) == *old(self)
                },
                RemoteMessage::OpponentLeft => left_to_menu(*old(self), *final(self)),
                RemoteMessage::Other => *final(self) == *old(self),
            },
    {
        match m {
            RemoteMessage::Move { x, y } => self.remote_move(x, y),
            RemoteMessage::Pass => {
                let _ = self.pass_clicked();
            },
            RemoteMessage::Restart => {
                let _ = self.restart_clicked();
            },
            RemoteMessage::OpponentJoined => {
                if self.game_state == GoGameState::WaitingForOpponent {
                    self.opponent_joined();
                }
            },
            RemoteMessage::OpponentLeft => self.opponent_left(),
            RemoteMessage::Other => {},
        }
    }

    /// The lines shown when the game is over: the winner, and both scores.
    pub fn result_lines(&self) -> (r: (String, String))
        requires
            self.wf(),
        ensures
            r.0@ == if score_black(self.game) > score_white(self.game) { "Schwarz gewinnt!"@ } else { "Weiß gewinnt!"@ },
            r.1@ == "Schwarz: "@ + half_points(score_black(self.game) as nat) + "  ·  Weiß: "@ + half_points(
                score_white(self.game) as nat,
            ),
    {
        let (b, w) = self.game.calculate_score();
        let winner = if b > w { "Schwarz gewinnt!".to_owned() } else { "Weiß gewinnt!".to_owned() };
        let mut line = "Schwarz: ".to_owned();
        line.append(half_points_text(b).as_str());
        line.append("  ·  Weiß: ");
        line.append(half_points_text(w).as_str());
        (winner, line)
    }
}

/// `s1` is `s0` once the opponent has joined: the game starts, the board unchanged.
pub open spec fn joined(s0: GoGame, s1: GoGame) -> bool {
    &&& s1.game_state == GoGameState::Playing
    &&& s1.status_message@ == "Gegner beigetreten! Schwarz ist am Zug."@
    &&& s1.game == s0.game
    &&& s1.room_key == s0.room_key
    &&& s1.multiplayer == s0.multiplayer
    &&& s1.my_color == s0.my_color
    &&& s1.ai_enabled == s0.ai_enabled
}

/// `s1` is `s0` after the player to move passed: the other side is to move, the board
/// stays, and the second pass in a row ends the game with the score shown.
pub open spec fn passed(s0: GoGame, s1: GoGame) -> bool {
    &&& s1.wf()
    &&& s1.game.consecutive_passes == s0.game.consecutive_passes + 1
    &&& s1.game.current_turn == opponent(s0.game.current_turn)
    &&& s1.game.board == s0.game.board
    &&& s1.game.game_over == (s0.game.game_over || s0.game.consecutive_passes + 1 >= 2)
    &&& s1.game.game_over ==> s1.status_message@ == game_over_line(s1.game)
    &&& !s1.game.game_over ==> s1.status_message@ == "Gepasst. "@ + to_move_line(s1.game.current_turn)
    &&& s1.ai_enabled == s0.ai_enabled
    &&& s1.game_state == s0.game_state
    &&& s1.room_key == s0.room_key
    &&& s1.multiplayer == s0.multiplayer
    &&& s1.my_color == s0.my_color
}

/// `s1` is `s0` after a restart: an empty board, Black to move, nothing captured.
pub open spec fn restarted(s0: GoGame, s1: GoGame) -> bool {
    &&& s1.wf()
    &&& s1.status_message@ == "Spiel neugestartet. Schwarz ist am Zug."@
    &&& s1.game.current_turn == Stone::Black
    &&& s1.game.board@.1 == Seq::new(361, |i: int| None::<Stone>)
    &&& !s1.game.game_over
    &&& s1.game.captured_black == 0
    &&& s1.game.captured_white == 0
    &&& s1.ai_enabled == s0.ai_enabled
    &&& s1.game_state == s0.game_state
    &&& s1.room_key == s0.room_key
    &&& s1.multiplayer == s0.multiplayer
    &&& s1.my_color == s0.my_color
}

/// `s1` is `s0` after the opponent left: back on the menu, no longer a game over the
/// network, the board as it was.
pub open spec fn left_to_menu(s0: GoGame, s1: GoGame) -> bool {
    &&& s1.game_state == GoGameState::Menu
    &&& !s1.multiplayer
    &&& s1.my_color is None
    &&& s1.game == s0.game
    &&& s1.status_message == s0.status_message
    &&& s1.ai_enabled == s0.ai_enabled
    &&& s1.room_key == s0.room_key
}

/// `s1` is `s0` after the opponent's move to `(x, y)` arrived: played as the rules allow
/// (a refused move changes nothing), and the status names the player to move.
pub open spec fn remote_moved(s0: GoGame, s1: GoGame, x: u64, y: u64) -> bool {
    &&& s1.wf()
    &&& move_allowed(s0.game, (x as usize, y as usize)) ==> placed(s0.game, s1.game, (x as usize, y as usize))
    &&& !move_allowed(s0.game, (x as usize, y as usize)) ==> s1.game == s0.game
    &&& s1.status_message@ == to_move_line(s1.game.current_turn)
    &&& s1.ai_enabled == s0.ai_enabled
    &&& s1.game_state == s0.game_state
    &&& s1.room_key == s0.room_key
    &&& s1.multiplayer == s0.multiplayer
    &&& s1.my_color == s0.my_color
}

} // verus!
