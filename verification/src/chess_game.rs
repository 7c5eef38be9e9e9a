use vstd::prelude::*;
use crate::text::{digit, digit_char};
use crate::chess::{ChessBoard, Color, Meeple, Move, Type, on_board, piece_at, all_on_board, board_after, other_color, opposite_color, no_move, legal_moves, pawn_moves, sides, piece_char};

verus! {

/// The chess engine's settings: its search depth and the colour it plays.
#[derive(Copy, Clone, Debug)]
pub struct Engine {
    pub level: u16,
    pub color: Color,
}

impl Engine {
    pub fn new(level_: u16, color: Color) -> (r: Engine)
        ensures
            r.level == level_,
            r.color == color,
    {
        Engine { level: level_, color: color }
    }
}

/// The square with reading-order number `k`: column `k % 8`, row `k / 8`.
pub open spec fn square_of(k: int) -> (usize, usize) {
    ((k % 8) as usize, (k / 8) as usize)
}

/// Whether piece `m` is of the group asked for: of colour `c` (when `same`) or of the
/// other colour (when not), and a king (when `king`) or no king (when not).
pub open spec fn in_group(m: Meeple, c: Color, same: bool, king: bool) -> bool {
    (m.color == c) == same && (m.typ == Type::King) == king
}

/// The pieces of a group on the first `n` squares in reading order (row by row, each
/// row from column 0 to 7).
pub open spec fn pieces_where(b: ChessBoard, n: int, c: Color, same: bool, king: bool) -> Seq<Meeple>
    decreases n,
{
    if n <= 0 {
        Seq::empty()
    } else {
        let rest = pieces_where(b, n - 1, c, same, king);
        let q = piece_at(b, square_of(n - 1));
        if q is Some && in_group(q->0, c, same, king) {
            rest.push(q->0)
        } else {
            rest
        }
    }
}

/// The pieces of one side in reading order with its kings last.
pub open spec fn side_list(b: ChessBoard, c: Color, same: bool) -> Seq<Meeple> {
    pieces_where(b, 64, c, same, false) + pieces_where(b, 64, c, same, true)
}

/// The pieces of colour `color_at_0` and those of the other colour, each list in reading
/// order (row by row) with the kings moved to its end.
pub fn get_meeples_from_color(chess_board: &ChessBoard, color_at_0: Color) -> (r: (Vec<Meeple>, Vec<Meeple>))
    ensures
        r.0@ == side_list(*chess_board, color_at_0, true),
        r.1@ == side_list(*chess_board, color_at_0, false),
{
    let mut own: Vec<Meeple> = Vec::new();
    let mut other: Vec<Meeple> = Vec::new();
    let mut own_kings: Vec<Meeple> = Vec::new();
    let mut other_kings: Vec<Meeple> = Vec::new();
    let mut y: usize = 0;
    while y < 8
        invariant
            0 <= y <= 8,
            own@ == pieces_where(*chess_board, 8 * y, color_at_0, true, false),
            other@ == pieces_where(*chess_board, 8 * y, color_at_0, false, false),
            own_kings@ == pieces_where(*chess_board, 8 * y, color_at_0, true, true),
            other_kings@ == pieces_where(*chess_board, 8 * y, color_at_0, false, true),
        decreases 8 - y,
    {
        let mut x: usize = 0;
        while x < 8
            invariant
                0 <= y < 8,
                0 <= x <= 8,
                own@ == pieces_where(*chess_board, 8 * y + x, color_at_0, true, false),
                other@ == pieces_where(*chess_board, 8 * y + x, color_at_0, false, false),
                own_kings@ == pieces_where(*chess_board, 8 * y + x, color_at_0, true, true),
                other_kings@ == pieces_where(*chess_board, 8 * y + x, color_at_0, false, true),
            decreases 8 - x,
        {
            assert(square_of(8 * y + x) == (x, y)) by (nonlinear_arith)
                requires
                    x < 8,
            {
                assert((8 * y + x) % 8 == x as int);
                assert((8 * y + x) / 8 == y as int);
            }
            if let Some(meeple) = chess_board[x][y] {
                if meeple.color == color_at_0 {
                    if meeple.typ == Type::King {
                        own_kings.push(meeple);
                    } else {
                        own.push(meeple);
                    }
                } else {
                    if meeple.typ == Type::King {
                        other_kings.push(meeple);
                    } else {
                        other.push(meeple);
                    }
                }
            }
            x = x + 1;
        }
        y = y + 1;
    }
    own.append(&mut own_kings);
    other.append(&mut other_kings);
    (own, other)
}

/// Moves the piece on `frst` to `scnd`, replacing whatever stood there, and updates
/// its square.
pub fn walk_and_replace(frst: (usize, usize), scnd: (usize, usize), chess_board: &mut ChessBoard)
    requires
        on_board(frst),
        on_board(scnd),
        piece_at(*old(chess_board), frst) is Some,
    ensures
        *final(chess_board) == board_after(*old(chess_board), frst, scnd),
{
    let mut moved = chess_board[frst.0][frst.1].take().unwrap();
    moved.pos = scnd;
    chess_board[scnd.0][scnd.1] = Some(moved);
    assert(*chess_board =~= board_after(*old(chess_board), frst, scnd));
}

/// The moves White has at the start: each pawn one or two steps ahead, each knight to
/// the two squares in front of the pawns.
pub open spec fn opening_moves(x: int, y: int) -> Option<Seq<(usize, usize)>> {
    if y == 6 && 0 <= x < 8 {
        Some(seq![(x as usize, 5usize), (x as usize, 4usize)])
    } else if x == 1 && y == 7 {
        Some(seq![(0usize, 5usize), (2usize, 5usize)])
    } else if x == 6 && y == 7 {
        Some(seq![(7usize, 5usize), (5usize, 5usize)])
    } else {
        None
    }
}

/// The moves that can be shown for the squares of a board, square by square.
pub type MoveTable = [[Option<Vec<(usize, usize)>>; 8]; 8];

/// Whether `t` holds the moves `f(x, y)` for each square `(x, y)`.
pub open spec fn table_holds(t: MoveTable, f: spec_fn(int, int) -> Option<Seq<(usize, usize)>>) -> bool {
    forall|x: int, y: int| 0 <= x < 8 && 0 <= y < 8 ==> {
        let e = #[trigger] t[x][y];
        (e is Some <==> f(x, y) is Some) && (e is Some ==> e->0@ == f(x, y)->0)
    }
}

fn empty_row() -> (r: [Option<Vec<(usize, usize)>>; 8])
    ensures
        forall|y: int| 0 <= y < 8 ==> #[trigger] r[y] is None,
{
    [None, None, None, None, None, None, None, None]
}

/// A table with no moves on any square.
pub fn empty_move_table() -> (r: MoveTable)
    ensures
        forall|x: int, y: int| 0 <= x < 8 && 0 <= y < 8 ==> #[trigger] r[x][y] is None,
{
    [empty_row(), empty_row(), empty_row(), empty_row(), empty_row(), empty_row(), empty_row(), empty_row()]
}

/// The moves of White's pieces in the starting position.
pub fn create_basic_possible_moves() -> (r: MoveTable)
    ensures
        table_holds(r, |x: int, y: int| opening_moves(x, y)),
{
    let mut ret_vec = empty_move_table();
    let mut index: usize = 0;
    while index < 8
        invariant
            0 <= index <= 8,
            forall|x: int, y: int| 0 <= x < 8 && 0 <= y < 8 ==> {
                let e = #[trigger] ret_vec[x][y];
                if y == 6 && x < index {
                    e is Some && e->0@ == opening_moves(x, y)->0
                } else {
                    e is None
                }
            },
        decreases 8 - index,
    {
        ret_vec[index][6] = Some(vec![(index, 5), (index, 4)]);
        index = index + 1;
    }
    ret_vec[1][7] = Some(vec![(0, 5), (2, 5)]);
    ret_vec[6][7] = Some(vec![(7, 5), (5, 5)]);
    ret_vec
}

/// A copy of a list of squares.
pub fn copy_squares(v: &Vec<(usize, usize)>) -> (r: Vec<(usize, usize)>)
    ensures
        r@ == v@,
{
    let mut r: Vec<(usize, usize)> = Vec::new();
    let mut i: usize = 0;
    while i < v.len()
        invariant
            0 <= i <= v@.len(),
            r@ == v@.take(i as int),
        decreases v@.len() - i,
    {
        r.push(v[i]);
        i = i + 1;
        assert(r@ =~= v@.take(i as int));
    }
    assert(v@.take(v@.len() as int) =~= v@);
    r
}

/// The phase of a chess game, as the screen shows it.
#[derive(Clone, Copy, PartialEq, Eq, Debug, Structural)]
pub enum ChessState {
    /// The menu before a game.
    Initial,
    WaitingForOpponent,
    PlayLocal,
    PlayVsBot,
    MultiplayerAsWhite,
    MultiplayerAsBlack,
    /// A game in progress; the screen shows the evaluation of the board.
    Running,
    /// The game is over; the colour won.
    Won(Color),
    TieByTripleRepetition,
}

/// Whether the engine is to move: it plays the side to move and no promotion waits.
pub open spec fn engine_moves(g: ChessGame) -> bool {
    g.engine matches Some(bot) && bot.color == g.turn && !g.pawn_mutate
}

/// Whether the game is over.
pub open spec fn is_over(s: ChessState) -> bool {
    s is Won || s is TieByTripleRepetition
}

/// Every piece stands on the square its position names.
pub open spec fn board_consistent(b: ChessBoard) -> bool {
    forall|x: int, y: int| 0 <= x < 8 && 0 <= y < 8 ==>
        (#[trigger] b[x][y] matches Some(m) ==> m.pos == (x as usize, y as usize))
}

/// The logic of a chess game: the board, the moves each piece of the side to move can
/// make, the moves shown for the clicked piece, castling rights and the en passant
/// square last found, how often each position occurred, the moves made, the clicked
/// square, the side to move, whether a pawn waits for its promotion, the engine's
/// settings, the bot level chosen in the menu, and the colour played over the network.
pub struct ChessGame {
    pub state: ChessState,
    pub game_board: ChessBoard,
    pub possible_moves: MoveTable,
    pub shown_moves: Option<Vec<(usize, usize)>>,
    pub casteling_rights: ((bool, bool), (bool, bool)),
    pub en_passant_pos: Option<(usize, usize)>,
    pub repeat: Vec<(Vec<char>, u8)>,
    pub logs: Vec<Move>,
    pub clicked_meeple: (usize, usize),
    pub turn: Color,
    pub pawn_mutate: bool,
    pub engine: Option<Engine>,
    pub possible_bot_level: u16,
    pub multiplayer: Option<Color>,
}

/// The piece that starts on square `(x, y)`.
pub open spec fn initial_piece(x: int, y: int) -> Option<Meeple> {
    let pos = (x as usize, y as usize);
    if y == 0 {
        Some(back_rank_piece(pos, Color::Black))
    } else if y == 1 {
        Some(Meeple { pos, typ: Type::Pawn, color: Color::Black, move_counter: 0, value: 10 })
    } else if y == 6 {
        Some(Meeple { pos, typ: Type::Pawn, color: Color::White, move_counter: 0, value: 10 })
    } else if y == 7 {
        Some(back_rank_piece(pos, Color::White))
    } else {
        None
    }
}

/// The piece of the back rank on column `pos.0`: rooks, knights, bishops, queen, king,
/// with values in tenths of a pawn.
pub open spec fn back_rank_piece(pos: (usize, usize), color: Color) -> Meeple {
    let (typ, value) = if pos.0 == 0 || pos.0 == 7 {
        (Type::Rook, 50u16)
    } else if pos.0 == 1 || pos.0 == 6 {
        (Type::Knight, 27u16)
    } else if pos.0 == 2 || pos.0 == 5 {
        (Type::Bishop, 30u16)
    } else if pos.0 == 3 {
        (Type::Queen, 90u16)
    } else {
        (Type::King, 0u16)
    };
    Meeple { pos, typ, color, move_counter: 0, value }
}

/// The repetition table holds each position once, each counted at most three times, and
/// a position counted three times means the game is over.
pub open spec fn repeat_ok(t: Seq<(Vec<char>, u8)>, s: ChessState) -> bool {
    &&& forall|i: int, j: int| 0 <= i < j < t.len() ==> (#[trigger] t[i]).0@ != (#[trigger] t[j]).0@
    &&& forall|i: int| 0 <= i < t.len() ==> (#[trigger] t[i]).1 <= 3
    &&& forall|i: int| 0 <= i < t.len() ==> ((#[trigger] t[i]).1 == 3 ==> is_over(s))
}

impl ChessGame {
    /// The game's invariant: pieces stand where their positions say, a last move is
    /// always logged, the repetition table is in order, and the en passant square lies on
    /// the board.
    pub open spec fn wf(&self) -> bool {
        &&& board_consistent(self.game_board)
        &&& self.logs@.len() > 0
        &&& repeat_ok(self.repeat@, self.state)
        &&& (self.en_passant_pos matches Some(p) ==> on_board(p))
    }

    /// The piece of the back rank for column `cords.0`.
    fn create_special_line(cords: (usize, usize), color: Color) -> (r: Meeple)
        requires
            cords.0 < 8,
        ensures
            r == back_rank_piece(cords, color),
    {
        match cords.0 {
            0 | 7 => Meeple::new(cords, Type::Rook, color, 50),
            1 | 6 => Meeple::new(cords, Type::Knight, color, 27),
            2 | 5 => Meeple::new(cords, Type::Bishop, color, 30),
            3 => Meeple::new(cords, Type::Queen, color, 90),
            _ => Meeple::new(cords, Type::King, color, 0),
        }
    }

    /// A new game in the menu state: the pieces in their starting squares, White to move,
    /// White's opening moves ready, no move made yet, no engine, bot level 3.
    pub fn new() -> (r: Self)
        ensures
            r.wf(),
            r.state == ChessState::Initial,
            forall|x: int, y: int| 0 <= x < 8 && 0 <= y < 8 ==> #[trigger] r.game_board[x][y] == initial_piece(x, y),
            table_holds(r.possible_moves, |x: int, y: int| opening_moves(x, y)),
            r.shown_moves is None,
            r.logs@ == seq![no_move()],
            r.repeat@.len() == 0,
            r.turn == Color::White,
            r.casteling_rights == ((false, false), (false, false)),
            r.en_passant_pos is None,
            r.clicked_meeple == (42usize, 42usize),
            !r.pawn_mutate,
            r.engine is None,
            r.possible_bot_level == 3,
            r.multiplayer is None,
    {
        let mut chess_board: ChessBoard = [[None; 8]; 8];
        let mut x: usize = 0;
        while x < 8
            invariant
                0 <= x <= 8,
                forall|i: int, j: int| 0 <= i < 8 && 0 <= j < 8 ==>
                    #[trigger] chess_board[i][j] == if i < x { initial_piece(i, j) } else { None },
            decreases 8 - x,
        {
            let mut y: usize = 0;
            while y < 8
                invariant
                    0 <= x < 8,
                    0 <= y <= 8,
                    forall|i: int, j: int| 0 <= i < 8 && 0 <= j < 8 ==>
                        #[trigger] chess_board[i][j] == if i < x || (i == x && j < y) { initial_piece(i, j) } else { None },
                decreases 8 - y,
            {
                if y == 0 {
                    chess_board[x][y] = Some(ChessGame::create_special_line((x, y), Color::Black));
                } else if y == 1 {
                    chess_board[x][y] = Some(Meeple::new((x, y), Type::Pawn, Color::Black, 10));
                } else if y == 6 {
                    chess_board[x][y] = Some(Meeple::new((x, y), Type::Pawn, Color::White, 10));
                } else if y == 7 {
                    chess_board[x][y] = Some(ChessGame::create_special_line((x, y), Color::White));
                }
                y = y + 1;
            }
            x = x + 1;
        }
        let possible_moves_ = create_basic_possible_moves();
        let mut logs_: Vec<Move> = Vec::new();
        logs_.push(((42, 42), (42, 42)));
        let r = ChessGame {
            state: ChessState::Initial,
            game_board: chess_board,
            possible_moves: possible_moves_,
            shown_moves: None,
            casteling_rights: ((false, false), (false, false)),
            en_passant_pos: None,
            repeat: Vec::new(),
            logs: logs_,
            clicked_meeple: (42, 42),
            turn: Color::White,
            pawn_mutate: false,
            engine: None,
            possible_bot_level: 3,
            multiplayer: None,
        };
        assert(r.logs@ =~= seq![no_move()]);
        r
    }

    /// Shows the moves of the piece on `(x, y)` and remembers it as clicked; nothing
    /// happens once the game is over, or when it is the opponent's turn over the network.
    pub fn show_moves(&mut self, pos: (usize, usize))
        requires
            on_board(pos),
        ensures
            ({
                let blocked = is_over(old(self).state) || (old(self).multiplayer matches Some(c) && c != old(self).turn);
                &&& blocked ==> final(self).shown_moves == old(self).shown_moves && final(self).clicked_meeple == old(self).clicked_meeple
                &&& !blocked ==> final(self).clicked_meeple == pos
                &&& !blocked ==> (final(self).shown_moves is Some <==> old(self).possible_moves[pos.0 as int][pos.1 as int] is Some)
                &&& !blocked && final(self).shown_moves is Some ==>
                    final(self).shown_moves->0@ == old(self).possible_moves[pos.0 as int][pos.1 as int]->0@
            }),
            final(self).state == old(self).state,
            final(self).game_board == old(self).game_board,
            final(self).possible_moves == old(self).possible_moves,
            final(self).casteling_rights == old(self).casteling_rights,
            final(self).en_passant_pos == old(self).en_passant_pos,
            final(self).repeat == old(self).repeat,
            final(self).logs == old(self).logs,
            final(self).turn == old(self).turn,
            final(self).pawn_mutate == old(self).pawn_mutate,
            final(self).engine == old(self).engine,
            final(self).possible_bot_level == old(self).possible_bot_level,
            final(self).multiplayer == old(self).multiplayer,
    {
        if self.state == ChessState::TieByTripleRepetition {
            return;
        }
        if let ChessState::Won(_) = self.state {
            return;
        }
        if let Some(color) = self.multiplayer {
            if color != self.turn {
                return;
            }
        }
        self.shown_moves = match &self.possible_moves[pos.0][pos.1] {
            Some(v) => Some(copy_squares(v)),
            None => None,
        };
        self.clicked_meeple = pos;
    }

    /// The move is a castling: a king moves two columns.
    fn check_casteling(&self, frst_pos: (usize, usize), scnd_pos: (usize, usize)) -> (r: bool)
        requires
            on_board(frst_pos),
            on_board(scnd_pos),
            piece_at(self.game_board, frst_pos) is Some,
            board_consistent(self.game_board),
        ensures
            r == (piece_at(self.game_board, frst_pos)->0.typ == Type::King
                && (frst_pos.0 == scnd_pos.0 + 2 || scnd_pos.0 == frst_pos.0 + 2)),
    {
        let frst = self.game_board[frst_pos.0][frst_pos.1].unwrap();
        let column_diff = frst.pos.0 as i8 - scnd_pos.0 as i8;
        if frst.typ == Type::King && (column_diff == 2 || column_diff == -2) {
            return true;
        }
        false
    }

    /// Moves the rook of a castling: to the f-file when the king went right, to the
    /// d-file when it went left.
    fn casteling_meeple(&mut self, frst: (usize, usize), scnd: (usize, usize))
        requires
            on_board(frst),
            on_board(scnd),
            frst.0 < scnd.0 ==> piece_at(old(self).game_board, (7usize, scnd.1)) is Some,
            frst.0 >= scnd.0 ==> piece_at(old(self).game_board, (0usize, scnd.1)) is Some,
        ensures
            final(self).game_board == if frst.0 < scnd.0 {
                board_after(old(self).game_board, (7usize, scnd.1), (5usize, scnd.1))
            } else {
                board_after(old(self).game_board, (0usize, scnd.1), (3usize, scnd.1))
            },
            final(self).state == old(self).state,
            final(self).logs == old(self).logs,
            final(self).repeat == old(self).repeat,
            final(self).turn == old(self).turn,
            final(self).engine == old(self).engine,
            final(self).multiplayer == old(self).multiplayer,
            final(self).clicked_meeple == old(self).clicked_meeple,
            final(self).en_passant_pos == old(self).en_passant_pos,
            final(self).casteling_rights == old(self).casteling_rights,
            final(self).possible_moves == old(self).possible_moves,
            final(self).shown_moves == old(self).shown_moves,
            final(self).pawn_mutate == old(self).pawn_mutate,
            final(self).possible_bot_level == old(self).possible_bot_level,
    {
        let column_diff = frst.0 as i8 - scnd.0 as i8;
        if column_diff < 0 {
            let new_rook_pos: (usize, usize) = (5, scnd.1);
            walk_and_replace((7, scnd.1), new_rook_pos, &mut self.game_board);
        } else {
            let new_rook_pos: (usize, usize) = (3, scnd.1);
            walk_and_replace((0, scnd.1), new_rook_pos, &mut self.game_board);
        }
    }

    /// The move is an en passant capture: a pawn moves to an empty square beside which
    /// (in its own row) stands a pawn of the other colour.
    fn check_en_passant(&self, frst_pos: (usize, usize), scnd_pos: (usize, usize)) -> (r: bool)
        requires
            on_board(frst_pos),
            on_board(scnd_pos),
            piece_at(self.game_board, frst_pos) is Some,
        ensures
            r == ({
                let frst = piece_at(self.game_board, frst_pos)->0;
                let side = piece_at(self.game_board, (scnd_pos.0, frst_pos.1));
                &&& frst.typ == Type::Pawn
                &&& piece_at(self.game_board, scnd_pos) is None
                &&& side is Some
                &&& side->0.typ == Type::Pawn
                &&& side->0.color != frst.color
            }),
    {
        let frst = self.game_board[frst_pos.0][frst_pos.1].unwrap();
        if frst.typ == Type::Pawn && self.game_board[scnd_pos.0][scnd_pos.1].is_none() {
            if let Some(opposite_color_pawn) = self.game_board[scnd_pos.0][frst_pos.1] {
                if opposite_color_pawn.typ == Type::Pawn && opposite_color_pawn.color != frst.color {
                    return true;
                }
            }
        }
        false
    }
}

/// The value in tenths of a pawn of a piece a pawn turns into.
pub open spec fn promotion_value(t: Type) -> u16 {
    match t {
        Type::Queen => 90,
        Type::Rook => 50,
        _ => 30,
    }
}

/// A kind a pawn may turn into.
pub open spec fn promotion_kind(t: Type) -> bool {
    t == Type::Queen || t == Type::Rook || t == Type::Bishop || t == Type::Knight
}

impl ChessGame {
    /// Turns the piece on the target square of the last move into `mutate_into` with its
    /// value, and ends the wait for a promotion. Returns whether an engine plays, which
    /// then is to move.
    pub fn mutate_pawn(&mut self, mutate_into: Type) -> (r: bool)
        requires
            old(self).logs@.len() > 0,
            on_board(old(self).logs@.last().1),
            promotion_kind(mutate_into),
        ensures
            r == old(self).engine is Some,
            !final(self).pawn_mutate,
            ({
                let p = old(self).logs@.last().1;
                final(self).game_board == match piece_at(old(self).game_board, p) {
                    Some(m) => vstd::array::spec_array_update(old(self).game_board, p.0 as int,
                        vstd::array::spec_array_update(old(self).game_board[p.0 as int], p.1 as int,
                            Some(Meeple { typ: mutate_into, value: promotion_value(mutate_into), ..m }))),
                    None => old(self).game_board,
                }
            }),
            final(self).state == old(self).state,
            final(self).logs == old(self).logs,
            final(self).repeat == old(self).repeat,
            final(self).turn == old(self).turn,
            final(self).engine == old(self).engine,
            final(self).multiplayer == old(self).multiplayer,
            final(self).clicked_meeple == old(self).clicked_meeple,
            final(self).en_passant_pos == old(self).en_passant_pos,
            final(self).casteling_rights == old(self).casteling_rights,
            final(self).possible_moves == old(self).possible_moves,
            final(self).shown_moves == old(self).shown_moves,
            final(self).possible_bot_level == old(self).possible_bot_level,
    {
        let pawn_pos = self.logs[self.logs.len() - 1].1;
        if let Some(mut pawn) = self.game_board[pawn_pos.0][pawn_pos.1] {
            pawn.typ = mutate_into;
            pawn.value = match mutate_into {
                Type::Queen => 90,
                Type::Rook => 50,
                Type::Bishop => 30,
                _ => 30,
            };
            self.game_board[pawn_pos.0][pawn_pos.1] = Some(pawn);
            assert(self.game_board =~= vstd::array::spec_array_update(old(self).game_board, pawn_pos.0 as int,
                vstd::array::spec_array_update(old(self).game_board[pawn_pos.0 as int], pawn_pos.1 as int, Some(pawn))));
        }
        self.pawn_mutate = false;
        self.engine.is_some()
    }

    /// After a move to `scnd_pos`: a pawn on the last row is promoted. The engine's own
    /// pawn becomes a queen at once (the result is then `true`: the engine is to move);
    /// otherwise the game waits for the player's choice.
    fn check_pawn_mutate(&mut self, scnd_pos: (usize, usize)) -> (r: bool)
        requires
            on_board(scnd_pos),
            old(self).logs@.len() > 0,
            old(self).logs@.last().1 == scnd_pos,
        ensures
            ({
                let q = piece_at(old(self).game_board, scnd_pos);
                let promotes = q is Some && q->0.typ == Type::Pawn
                    && ((q->0.color == Color::White && q->0.pos.1 == 0) || (q->0.color == Color::Black && q->0.pos.1 == 7));
                let engine_own = old(self).engine matches Some(bot) && bot.color == q->0.color;
                &&& r == (promotes && engine_own)
                &&& (promotes && engine_own) ==> final(self).game_board == vstd::array::spec_array_update(old(self).game_board,
                    scnd_pos.0 as int, vstd::array::spec_array_update(old(self).game_board[scnd_pos.0 as int], scnd_pos.1 as int,
                        Some(Meeple { typ: Type::Queen, value: 90, ..q->0 })))
                &&& (promotes && engine_own) ==> !final(self).pawn_mutate
                &&& !(promotes && engine_own) ==> final(self).game_board == old(self).game_board
                &&& (promotes && !engine_own) ==> final(self).pawn_mutate
                &&& !promotes ==> final(self).pawn_mutate == old(self).pawn_mutate
            }),
            final(self).state == old(self).state,
            final(self).logs == old(self).logs,
            final(self).repeat == old(self).repeat,
            final(self).turn == old(self).turn,
            final(self).engine == old(self).engine,
            final(self).multiplayer == old(self).multiplayer,
            final(self).clicked_meeple == old(self).clicked_meeple,
            final(self).en_passant_pos == old(self).en_passant_pos,
            final(self).casteling_rights == old(self).casteling_rights,
            final(self).possible_moves == old(self).possible_moves,
            final(self).shown_moves == old(self).shown_moves,
            final(self).possible_bot_level == old(self).possible_bot_level,
    {
        if let Some(pawn) = self.game_board[scnd_pos.0][scnd_pos.1] {
            if pawn.typ == Type::Pawn && ((pawn.color == Color::White && pawn.pos.1 == 0) || (pawn.color == Color::Black
                && pawn.pos.1 == 7)) {
                if let Some(bot) = self.engine {
                    if bot.color == pawn.color {
                        return self.mutate_pawn(Type::Queen);
                    }
                    self.pawn_mutate = true;
                } else {
                    self.pawn_mutate = true;
                }
            }
        }
        false
    }
}

proof fn lemma_square_of(x: int, y: int)
    requires
        0 <= x < 8,
        0 <= y < 8,
    ensures
        square_of(8 * y + x) == (x as usize, y as usize),
        0 <= 8 * y + x < 64,
{
    assert((8 * y + x) % 8 == x) by (nonlinear_arith)
        requires
            0 <= x < 8,
            0 <= y,
    ;
    assert((8 * y + x) / 8 == y) by (nonlinear_arith)
        requires
            0 <= x < 8,
            0 <= y,
    ;
}

proof fn lemma_square_of_on_board(k: int)
    requires
        0 <= k < 64,
    ensures
        on_board(square_of(k)),
        square_of(k).0 as int == k % 8,
        square_of(k).1 as int == k / 8,
{
}

/// The pieces of a list read off a consistent board stand on the board, on their squares.
proof fn lemma_pieces_where_on_board(b: ChessBoard, n: int, c: Color, same: bool, king: bool)
    requires
        board_consistent(b),
        n <= 64,
    ensures
        forall|i: int| 0 <= i < pieces_where(b, n, c, same, king).len() ==> {
            let m = #[trigger] pieces_where(b, n, c, same, king)[i];
            &&& on_board(m.pos)
            &&& piece_at(b, m.pos) == Some(m)
            &&& in_group(m, c, same, king)
        },
    decreases n,
{
    if n > 0 {
        lemma_pieces_where_on_board(b, n - 1, c, same, king);
        lemma_square_of_on_board(n - 1);
        let q = square_of(n - 1);
        assert(b[q.0 as int][q.1 as int] matches Some(m) ==> m.pos == q);
        let rest = pieces_where(b, n - 1, c, same, king);
        assert forall|i: int| 0 <= i < pieces_where(b, n, c, same, king).len() implies {
            let m = #[trigger] pieces_where(b, n, c, same, king)[i];
            &&& on_board(m.pos)
            &&& piece_at(b, m.pos) == Some(m)
            &&& in_group(m, c, same, king)
        } by {
            if i < rest.len() {
                assert(pieces_where(b, n, c, same, king)[i] == rest[i]);
            }
        }
    }
}

/// A piece of the group on one of the first `n` squares is in the list.
proof fn lemma_pieces_where_contains(b: ChessBoard, n: int, c: Color, same: bool, king: bool, k: int)
    requires
        0 <= k < n,
        piece_at(b, square_of(k)) is Some,
        in_group(piece_at(b, square_of(k))->0, c, same, king),
    ensures
        pieces_where(b, n, c, same, king).contains(piece_at(b, square_of(k))->0),
    decreases n,
{
    let m = piece_at(b, square_of(k))->0;
    if k == n - 1 {
        let rest = pieces_where(b, n - 1, c, same, king);
        assert(pieces_where(b, n, c, same, king)[rest.len() as int] == m);
    } else {
        lemma_pieces_where_contains(b, n - 1, c, same, king, k);
        let rest = pieces_where(b, n - 1, c, same, king);
        let j = choose|j: int| 0 <= j < rest.len() && rest[j] == m;
        assert(pieces_where(b, n, c, same, king)[j] == m);
    }
}

/// The list of a side holds exactly the pieces of the board that belong to it.
pub proof fn lemma_side_list(b: ChessBoard, c: Color, same: bool)
    requires
        board_consistent(b),
    ensures
        all_on_board(side_list(b, c, same)),
        forall|i: int| 0 <= i < side_list(b, c, same).len() ==> {
            let m = #[trigger] side_list(b, c, same)[i];
            &&& piece_at(b, m.pos) == Some(m)
            &&& (m.color == c) == same
        },
        forall|x: int, y: int| 0 <= x < 8 && 0 <= y < 8 && (#[trigger] b[x][y] matches Some(m) && (m.color == c) == same)
            ==> side_list(b, c, same).contains(b[x][y]->0),
{
    lemma_pieces_where_on_board(b, 64, c, same, false);
    lemma_pieces_where_on_board(b, 64, c, same, true);
    let l1 = pieces_where(b, 64, c, same, false);
    let l2 = pieces_where(b, 64, c, same, true);
    assert forall|i: int| 0 <= i < (l1 + l2).len() implies {
        let m = #[trigger] (l1 + l2)[i];
        &&& on_board(m.pos)
        &&& piece_at(b, m.pos) == Some(m)
        &&& (m.color == c) == same
    } by {
        if i >= l1.len() {
            assert((l1 + l2)[i] == l2[i - l1.len()]);
        }
    }
    assert forall|x: int, y: int| 0 <= x < 8 && 0 <= y < 8 && (#[trigger] b[x][y] matches Some(m) && (m.color == c) == same)
        implies side_list(b, c, same).contains(b[x][y]->0) by {
        lemma_square_of(x, y);
        let m = b[x][y]->0;
        if m.typ == Type::King {
            lemma_pieces_where_contains(b, 64, c, same, true, 8 * y + x);
            let j = choose|j: int| 0 <= j < l2.len() && l2[j] == m;
            assert((l1 + l2)[l1.len() + j] == m);
        } else {
            lemma_pieces_where_contains(b, 64, c, same, false, 8 * y + x);
            let j = choose|j: int| 0 <= j < l1.len() && l1[j] == m;
            assert((l1 + l2)[j] == m);
        }
    }
}

/// The legal moves that the piece on `(x, y)` of the side to move has, the lists of
/// both sides read off the board as `get_meeples_from_color` does for White.
pub open spec fn legal_entry(b: ChessBoard, turn: Color, last_move: Move, x: int, y: int) -> Option<Seq<(usize, usize)>> {
    match b[x][y] {
        Some(m) => if m.color == turn {
            Some(legal_moves(b, m, last_move, side_list(b, Color::White, true), side_list(b, Color::White, false)))
        } else {
            None
        },
        None => None,
    }
}

/// Some piece of the side to move has a legal move.
pub open spec fn side_can_move(b: ChessBoard, turn: Color, last_move: Move) -> bool {
    exists|x: int, y: int| 0 <= x < 8 && 0 <= y < 8 && (#[trigger] legal_entry(b, turn, last_move, x, y) matches Some(v) && v.len() > 0)
}

/// The en passant target found for piece `m`.
pub open spec fn ep_target(b: ChessBoard, m: Meeple, last_move: Move) -> Option<(usize, usize)> {
    if m.typ == Type::Pawn { pawn_moves(b, m, last_move).1 } else { None }
}

/// The moves of the pieces in `own[0..i]` are entered in the table.
pub open spec fn entered_upto(t: MoveTable, own: Seq<Meeple>, i: int) -> bool {
    forall|j: int| 0 <= j < i ==> #[trigger] t[own[j].pos.0 as int][own[j].pos.1 as int] is Some
}

/// What the table holds is right.
pub open spec fn table_sound(t: MoveTable, b: ChessBoard, turn: Color, last: Move) -> bool {
    forall|x: int, y: int| 0 <= x < 8 && 0 <= y < 8 ==> {
        let e = #[trigger] t[x][y];
        e is Some ==> (legal_entry(b, turn, last, x, y) is Some && e->0@ == legal_entry(b, turn, last, x, y)->0)
    }
}

/// Some piece of `own[0..i]` has a legal move.
pub open spec fn some_moves_upto(b: ChessBoard, turn: Color, last: Move, own: Seq<Meeple>, i: int) -> bool {
    exists|j: int| 0 <= j < i && (#[trigger] legal_entry(b, turn, last, own[j].pos.0 as int, own[j].pos.1 as int)->0).len() > 0
}

proof fn lemma_table_complete(t: MoveTable, b: ChessBoard, turn: Color, last: Move, own: Seq<Meeple>, can_move: bool)
    requires
        board_consistent(b),
        own == side_list(b, turn, true),
        table_sound(t, b, turn, last),
        entered_upto(t, own, own.len() as int),
        can_move == some_moves_upto(b, turn, last, own, own.len() as int),
    ensures
        table_holds(t, |x: int, y: int| legal_entry(b, turn, last, x, y)),
        can_move == side_can_move(b, turn, last),
{
    lemma_side_list(b, turn, true);
    assert forall|x: int, y: int| 0 <= x < 8 && 0 <= y < 8 implies {
        let e = #[trigger] t[x][y];
        (e is Some <==> legal_entry(b, turn, last, x, y) is Some)
            && (e is Some ==> e->0@ == legal_entry(b, turn, last, x, y)->0)
    } by {
        if legal_entry(b, turn, last, x, y) is Some {
            let m = b[x][y]->0;
            assert(own.contains(m));
            let j = choose|j: int| 0 <= j < own.len() && own[j] == m;
            assert(m.pos == (x as usize, y as usize));
            assert(t[own[j].pos.0 as int][own[j].pos.1 as int] is Some);
        }
    }
    if side_can_move(b, turn, last) {
        let (x, y) = choose|x: int, y: int| 0 <= x < 8 && 0 <= y < 8 && (#[trigger] legal_entry(b, turn, last, x, y) matches Some(v) && v.len() > 0);
        let m = b[x][y]->0;
        assert(own.contains(m));
        let j = choose|j: int| 0 <= j < own.len() && own[j] == m;
        assert(m.pos == (x as usize, y as usize));
        assert(legal_entry(b, turn, last, own[j].pos.0 as int, own[j].pos.1 as int)->0.len() > 0);
    }
    if can_move {
        let j = choose|j: int| 0 <= j < own.len() && (#[trigger] legal_entry(b, turn, last, own[j].pos.0 as int, own[j].pos.1 as int)->0).len() > 0;
        let m = own[j];
        assert(piece_at(b, m.pos) == Some(m));
        assert(legal_entry(b, turn, last, m.pos.0 as int, m.pos.1 as int) is Some);
    }
}

/// Both side lists of a board hold only pieces on the board, and the list of a piece's
/// own side is not empty.
proof fn lemma_lists_for_piece(b: ChessBoard, m: Meeple)
    requires
        board_consistent(b),
        on_board(m.pos),
        piece_at(b, m.pos) == Some(m),
    ensures
        all_on_board(side_list(b, Color::White, true)),
        all_on_board(side_list(b, Color::White, false)),
        sides(m, side_list(b, Color::White, true), side_list(b, Color::White, false)).0.len() > 0,
{
    lemma_side_list(b, Color::White, true);
    lemma_side_list(b, Color::White, false);
    assert(b[m.pos.0 as int][m.pos.1 as int] == Some(m));
    if m.color == Color::White {
        assert(side_list(b, Color::White, true).contains(m));
    } else {
        assert(side_list(b, Color::White, false).contains(m));
    }
}

/// The legal moves of each piece of colour `turn`, in a table by square; whether any
/// piece has one; the en passant target found for the last piece of the side's list;
/// whether the side has pieces.
#[verifier::rlimit(40)]
fn scan_legal_moves(chess_board: &ChessBoard, turn: Color, last_move: &Move) -> (r: (MoveTable, bool, Option<(usize, usize)>, bool))
    requires
        board_consistent(*chess_board),
    ensures
        table_holds(r.0, |x: int, y: int| legal_entry(*chess_board, turn, *last_move, x, y)),
        r.1 == side_can_move(*chess_board, turn, *last_move),
        r.3 == (side_list(*chess_board, turn, true).len() > 0),
        r.3 ==> r.2 == ep_target(*chess_board, side_list(*chess_board, turn, true).last(), *last_move),
{
    let ghost b = *chess_board;
    let ghost last = *last_move;
    let mut ret_vec = empty_move_table();
    let colores = get_meeples_from_color(chess_board, turn);
    let ghost own = colores.0@;
    proof {
        lemma_side_list(b, turn, true);
    }
    let mut can_move = false;
    let mut en_passant_pos: Option<(usize, usize)> = None;
    let mut i: usize = 0;
    while i < colores.0.len()
        invariant
            0 <= i <= own.len(),
            colores.0@ == own,
            own == side_list(b, turn, true),
            b == *chess_board,
            last == *last_move,
            board_consistent(b),
            all_on_board(own),
            forall|j: int| 0 <= j < own.len() ==> {
                let m = #[trigger] own[j];
                &&& piece_at(b, m.pos) == Some(m)
                &&& m.color == turn
            },
            table_sound(ret_vec, b, turn, last),
            entered_upto(ret_vec, own, i as int),
            can_move == some_moves_upto(b, turn, last, own, i as int),
            i > 0 ==> en_passant_pos == ep_target(b, own[i - 1], last),
        decreases own.len() - i,
    {
        let colored_meeple = colores.0[i];
        let meeples = get_meeples_from_color(chess_board, Color::White);
        proof {
            lemma_lists_for_piece(b, colored_meeple);
        }
        let can_hit = colored_meeple.show_legal_moves(chess_board, last_move, &meeples.0, &meeples.1);
        if can_hit.0.len() > 0 {
            can_move = true;
        }
        en_passant_pos = can_hit.1;
        let p = colored_meeple.pos;
        ret_vec[p.0][p.1] = Some(can_hit.0);
        proof {
            assert(legal_entry(b, turn, last, p.0 as int, p.1 as int) == Some(legal_moves(b, colored_meeple, last,
                side_list(b, Color::White, true), side_list(b, Color::White, false))));
            assert forall|j: int| 0 <= j < i + 1 implies #[trigger] ret_vec[own[j].pos.0 as int][own[j].pos.1 as int] is Some by {
            }
            if can_hit.0@.len() > 0 {
                assert(legal_entry(b, turn, last, own[i as int].pos.0 as int, own[i as int].pos.1 as int)->0.len() > 0);
            }
            if can_move && can_hit.0@.len() == 0 {
                let j = choose|j: int| 0 <= j < i && (#[trigger] legal_entry(b, turn, last, own[j].pos.0 as int, own[j].pos.1 as int)->0).len() > 0;
                assert(0 <= j < i + 1);
            }
        }
        i = i + 1;
    }
    proof {
        lemma_table_complete(ret_vec, b, turn, last, own, can_move);
    }
    let nonempty = colores.0.len() > 0;
    (ret_vec, can_move, en_passant_pos, nonempty)
}

proof fn lemma_ep_target_on_board(b: ChessBoard, m: Meeple, last: Move)
    requires
        on_board(m.pos),
    ensures
        ep_target(b, m, last) matches Some(p) ==> on_board(p),
{
}

impl ChessGame {
    /// Finds the legal moves of every piece of the side to move. When none has any, the
    /// other side has won. The en passant square and castling rights are those found for
    /// the last piece of the side's list (its king).
    pub fn get_all_possible_moves(&mut self)
        requires
            old(self).wf(),
        ensures
            final(self).wf(),
            ({
                let b = old(self).game_board;
                let last = old(self).logs@.last();
                let own = side_list(b, old(self).turn, true);
                &&& table_holds(final(self).possible_moves, |x: int, y: int| legal_entry(b, old(self).turn, last, x, y))
                &&& final(self).state == if side_can_move(b, old(self).turn, last) {
                    old(self).state
                } else {
                    ChessState::Won(other_color(old(self).turn))
                }
                &&& final(self).en_passant_pos == if own.len() == 0 { old(self).en_passant_pos } else { ep_target(b, own.last(), last) }
                &&& final(self).casteling_rights == if own.len() == 0 {
                    old(self).casteling_rights
                } else {
                    ((false, false), (false, false))
                }
            }),
            final(self).game_board == old(self).game_board,
            final(self).logs == old(self).logs,
            final(self).repeat == old(self).repeat,
            final(self).turn == old(self).turn,
            final(self).shown_moves == old(self).shown_moves,
            final(self).clicked_meeple == old(self).clicked_meeple,
            final(self).pawn_mutate == old(self).pawn_mutate,
            final(self).engine == old(self).engine,
            final(self).possible_bot_level == old(self).possible_bot_level,
            final(self).multiplayer == old(self).multiplayer,
    {
        let last_move = self.logs[self.logs.len() - 1];
        let (table, can_move, en_passant, nonempty) = scan_legal_moves(&self.game_board, self.turn, &last_move);
        proof {
            lemma_side_list(self.game_board, self.turn, true);
            let own = side_list(self.game_board, self.turn, true);
            if nonempty {
                lemma_ep_target_on_board(self.game_board, own.last(), last_move);
            }
        }
        if nonempty {
            self.en_passant_pos = en_passant;
            self.casteling_rights = ((false, false), (false, false));
        }
        if !can_move {
            self.state = ChessState::Won(opposite_color(self.turn));
        }
        self.possible_moves = table;
    }
}

// ---------------------------------------------------------------------------
// Repetition of positions
// ---------------------------------------------------------------------------

/// A run of `r` empty squares, written as its length (nothing for none).
pub open spec fn empty_run(r: int) -> Seq<char> {
    if r != 0 { seq![digit(r)] } else { Seq::empty() }
}

/// Row `y` read from column 0 up to `x`: the text written so far and the empty squares
/// not yet written.
pub open spec fn row_prefix(b: ChessBoard, y: int, x: int) -> (Seq<char>, int)
    decreases x,
{
    if x <= 0 {
        (Seq::empty(), 0)
    } else {
        let (s, r) = row_prefix(b, y, x - 1);
        match b[x - 1][y] {
            Some(m) => (s + empty_run(r) + seq![piece_char(m.typ, m.color)], 0),
            None => (s, r + 1),
        }
    }
}

/// Row `y` of the position key: pieces by their letters, runs of empty squares by their
/// length, then `/` (a space after the last row).
pub open spec fn row_code(b: ChessBoard, y: int) -> Seq<char> {
    let (s, r) = row_prefix(b, y, 8);
    s + empty_run(r) + seq![if y == 7 { ' ' } else { '/' }]
}

/// Rows `0..n` of the position key.
pub open spec fn board_code(b: ChessBoard, n: int) -> Seq<char>
    decreases n,
{
    if n <= 0 { Seq::empty() } else { board_code(b, n - 1) + row_code(b, n - 1) }
}

/// The key of a position, much like Forsyth-Edwards notation: the rows, `w ` or `b ` for
/// the side to move, the castling rights (`KQkq`, `-` where missing), a space, and the en
/// passant square as two digits (`-` for none).
pub open spec fn position_key(b: ChessBoard, turn: Color, rights: ((bool, bool), (bool, bool)), ep: Option<(usize, usize)>) -> Seq<char> {
    board_code(b, 8)
        + (if turn == Color::White { seq!['w', ' '] } else { seq!['b', ' '] })
        + seq![
            if rights.0.0 { 'K' } else { '-' },
            if rights.0.1 { 'Q' } else { '-' },
            if rights.1.0 { 'k' } else { '-' },
            if rights.1.1 { 'q' } else { '-' },
            ' '
        ]
        + match ep {
            Some(p) => seq![digit(p.0 as int), digit(p.1 as int)],
            None => seq!['-'],
        }
}

/// How often the position with key `k` occurred, by the table.
pub open spec fn count_of(t: Seq<(Vec<char>, u8)>, k: Seq<char>) -> int
    decreases t.len(),
{
    if t.len() == 0 {
        0
    } else if t.last().0@ == k {
        t.last().1 as int
    } else {
        count_of(t.drop_last(), k)
    }
}

proof fn lemma_count_of_absent(t: Seq<(Vec<char>, u8)>, k: Seq<char>)
    requires
        forall|i: int| 0 <= i < t.len() ==> (#[trigger] t[i]).0@ != k,
    ensures
        count_of(t, k) == 0,
    decreases t.len(),
{
    if t.len() > 0 {
        assert(t.last() == t[t.len() - 1]);
        lemma_count_of_absent(t.drop_last(), k);
    }
}

proof fn lemma_count_of_at(t: Seq<(Vec<char>, u8)>, i: int)
    requires
        0 <= i < t.len(),
        forall|a: int, b: int| 0 <= a < b < t.len() ==> (#[trigger] t[a]).0@ != (#[trigger] t[b]).0@,
    ensures
        count_of(t, t[i].0@) == t[i].1,
    decreases t.len(),
{
    if i < t.len() - 1 {
        assert(t.last() == t[t.len() - 1]);
        assert(t.drop_last()[i] == t[i]);
        lemma_count_of_at(t.drop_last(), i);
    }
}

/// Counting a position once more changes its count only.
proof fn lemma_count_of_bump(t: Seq<(Vec<char>, u8)>, i: int, e: (Vec<char>, u8), k: Seq<char>)
    requires
        0 <= i < t.len(),
        e.0@ == t[i].0@,
        forall|a: int, b: int| 0 <= a < b < t.len() ==> (#[trigger] t[a]).0@ != (#[trigger] t[b]).0@,
        k != t[i].0@,
    ensures
        count_of(t.update(i, e), k) == count_of(t, k),
    decreases t.len(),
{
    let t2 = t.update(i, e);
    assert(t2.drop_last() =~= if i < t.len() - 1 { t.drop_last().update(i, e) } else { t.drop_last() });
    if i < t.len() - 1 {
        assert(t.drop_last()[i] == t[i]);
        lemma_count_of_bump(t.drop_last(), i, e, k);
    }
}

/// Whether two keys are equal.
fn same_key(a: &Vec<char>, b: &Vec<char>) -> (r: bool)
    ensures
        r == (a@ == b@),
{
    if a.len() != b.len() {
        return false;
    }
    let mut i: usize = 0;
    while i < a.len()
        invariant
            0 <= i <= a@.len(),
            a@.len() == b@.len(),
            forall|j: int| 0 <= j < i ==> a@[j] == b@[j],
        decreases a@.len() - i,
    {
        if a[i] != b[i] {
            return false;
        }
        i = i + 1;
    }
    assert(a@ =~= b@);
    true
}

impl ChessGame {
    /// The key of the current position.
    fn position_key_of(&self) -> (r: Vec<char>)
        requires
            self.en_passant_pos matches Some(p) ==> on_board(p),
        ensures
            r@ == position_key(self.game_board, self.turn, self.casteling_rights, self.en_passant_pos),
    {
        let mut hash_key: Vec<char> = Vec::new();
        let mut y: usize = 0;
        while y < 8
            invariant
                0 <= y <= 8,
                hash_key@ == board_code(self.game_board, y as int),
            decreases 8 - y,
        {
            append_row(&mut hash_key, &self.game_board, y);
            y = y + 1;
        }
        append_position_tail(&mut hash_key, self.turn, self.casteling_rights, self.en_passant_pos);
        hash_key
    }

    /// Counts the current position once more; the third time ends the game in a tie.
    pub fn triple_repetition(&mut self)
        requires
            old(self).wf(),
            old(self).en_passant_pos matches Some(p) ==> on_board(p),
            forall|i: int| 0 <= i < old(self).repeat@.len() ==> (#[trigger] old(self).repeat@[i]).1 <= 2,
        ensures
            final(self).wf(),
            ({
                let k = position_key(old(self).game_board, old(self).turn, old(self).casteling_rights, old(self).en_passant_pos);
                &&& count_of(final(self).repeat@, k) == count_of(old(self).repeat@, k) + 1
                &&& forall|k2: Seq<char>| k2 != k ==> #[trigger] count_of(final(self).repeat@, k2) == count_of(old(self).repeat@, k2)
                &&& final(self).state == if count_of(final(self).repeat@, k) >= 3 {
                    ChessState::TieByTripleRepetition
                } else {
                    old(self).state
                }
            }),
            final(self).game_board == old(self).game_board,
            final(self).possible_moves == old(self).possible_moves,
            final(self).shown_moves == old(self).shown_moves,
            final(self).casteling_rights == old(self).casteling_rights,
            final(self).en_passant_pos == old(self).en_passant_pos,
            final(self).logs == old(self).logs,
            final(self).clicked_meeple == old(self).clicked_meeple,
            final(self).turn == old(self).turn,
            final(self).pawn_mutate == old(self).pawn_mutate,
            final(self).engine == old(self).engine,
            final(self).possible_bot_level == old(self).possible_bot_level,
            final(self).multiplayer == old(self).multiplayer,
    {
        let hash_key = self.position_key_of();
        let ghost k = hash_key@;
        let ghost t0 = self.repeat@;
        let mut i: usize = 0;
        let mut found = false;
        while i < self.repeat.len()
            invariant_except_break
                !found,
            invariant
                0 <= i <= t0.len(),
                self.repeat@ == t0,
                hash_key@ == k,
                forall|j: int| 0 <= j < i ==> (#[trigger] t0[j]).0@ != k,
                found ==> i < t0.len() && t0[i as int].0@ == k,
            ensures
                found ==> i < t0.len() && t0[i as int].0@ == k,
                !found ==> forall|j: int| 0 <= j < t0.len() ==> (#[trigger] t0[j]).0@ != k,
            decreases t0.len() - i,
        {
            if same_key(&self.repeat[i].0, &hash_key) {
                found = true;
                break;
            }
            i = i + 1;
        }
        let count: u8;
        if found {
            let c = self.repeat[i].1 + 1;
            let key_i = copy_key(&self.repeat[i].0);
            self.repeat.set(i, (key_i, c));
            count = c;
            proof {
                lemma_count_of_at(t0, i as int);
                lemma_count_of_at(self.repeat@, i as int);
                assert forall|k2: Seq<char>| k2 != k implies #[trigger] count_of(self.repeat@, k2) == count_of(t0, k2) by {
                    lemma_count_of_bump(t0, i as int, (key_i, c), k2);
                }
            }
        } else {
            self.repeat.push((hash_key, 1));
            count = 1;
            proof {
                lemma_count_of_absent(t0, k);
                assert(self.repeat@.drop_last() =~= t0);
                assert forall|k2: Seq<char>| k2 != k implies #[trigger] count_of(self.repeat@, k2) == count_of(t0, k2) by {
                }
            }
        }
        if count >= 3 {
            self.state = ChessState::TieByTripleRepetition;
        }
        proof {
            assert forall|a: int, b: int| 0 <= a < b < self.repeat@.len() implies (#[trigger] self.repeat@[a]).0@ != (#[trigger] self.repeat@[b]).0@ by {
                if found {
                } else {
                    if b == t0.len() {
                        assert(self.repeat@[a] == t0[a]);
                    } else {
                        assert(self.repeat@[a] == t0[a]);
                        assert(self.repeat@[b] == t0[b]);
                    }
                }
            }
        }
    }
}

/// Appends row `y` of the position key.
fn append_row(hash_key: &mut Vec<char>, chess_board: &ChessBoard, y: usize)
    requires
        y < 8,
    ensures
        final(hash_key)@ == old(hash_key)@ + row_code(*chess_board, y as int),
{
    let ghost start = hash_key@;
    let mut empty_counter: usize = 0;
    let mut x: usize = 0;
    while x < 8
        invariant
            0 <= x <= 8,
            0 <= y < 8,
            hash_key@ == start + row_prefix(*chess_board, y as int, x as int).0,
            empty_counter == row_prefix(*chess_board, y as int, x as int).1,
            empty_counter <= x,
        decreases 8 - x,
    {
        if let Some(meeple) = chess_board[x][y] {
            if empty_counter != 0 {
                hash_key.push(digit_char(empty_counter));
                empty_counter = 0;
            }
            hash_key.push(meeple.get_char());
        } else {
            empty_counter = empty_counter + 1;
        }
        x = x + 1;
        assert(hash_key@ =~= start + row_prefix(*chess_board, y as int, x as int).0);
    }
    if empty_counter != 0 {
        hash_key.push(digit_char(empty_counter));
    }
    if y == 7 {
        hash_key.push(' ');
    } else {
        hash_key.push('/');
    }
    assert(hash_key@ =~= start + row_code(*chess_board, y as int));
}

/// Appends the side to move, the castling rights and the en passant square.
fn append_position_tail(hash_key: &mut Vec<char>, turn: Color, rights: ((bool, bool), (bool, bool)), ep: Option<(usize, usize)>)
    requires
        ep matches Some(p) ==> on_board(p),
    ensures
        final(hash_key)@ == old(hash_key)@ + (if turn == Color::White { seq!['w', ' '] } else { seq!['b', ' '] })
            + seq![
                if rights.0.0 { 'K' } else { '-' },
                if rights.0.1 { 'Q' } else { '-' },
                if rights.1.0 { 'k' } else { '-' },
                if rights.1.1 { 'q' } else { '-' },
                ' '
            ]
            + match ep {
                Some(p) => seq![digit(p.0 as int), digit(p.1 as int)],
                None => seq!['-'],
            },
{
    let ghost start = hash_key@;
    if turn == Color::White {
        hash_key.push('w');
        hash_key.push(' ');
    } else {
        hash_key.push('b');
        hash_key.push(' ');
    }
    hash_key.push(if rights.0.0 { 'K' } else { '-' });
    hash_key.push(if rights.0.1 { 'Q' } else { '-' });
    hash_key.push(if rights.1.0 { 'k' } else { '-' });
    hash_key.push(if rights.1.1 { 'q' } else { '-' });
    hash_key.push(' ');
    let ghost mid = hash_key@;
    if let Some(ed_pos) = ep {
        hash_key.push(digit_char(ed_pos.0));
        hash_key.push(digit_char(ed_pos.1));
    } else {
        hash_key.push('-');
    }
    assert(hash_key@ =~= start + (if turn == Color::White { seq!['w', ' '] } else { seq!['b', ' '] })
        + seq![
            if rights.0.0 { 'K' } else { '-' },
            if rights.0.1 { 'Q' } else { '-' },
            if rights.1.0 { 'k' } else { '-' },
            if rights.1.1 { 'q' } else { '-' },
            ' '
        ]
        + match ep {
            Some(p) => seq![digit(p.0 as int), digit(p.1 as int)],
            None => seq!['-'],
        });
}

/// A copy of a key.
fn copy_key(v: &Vec<char>) -> (r: Vec<char>)
    ensures
        r@ == v@,
{
    let mut r: Vec<char> = Vec::new();
    let mut i: usize = 0;
    while i < v.len()
        invariant
            0 <= i <= v@.len(),
            r@ == v@.take(i as int),
        decreases v@.len() - i,
    {
        r.push(v[i]);
        i = i + 1;
        assert(r@ =~= v@.take(i as int));
    }
    assert(v@.take(v@.len() as int) =~= v@);
    r
}

// ---------------------------------------------------------------------------
// Making moves
// ---------------------------------------------------------------------------

/// What the opponent's side sends over the network, as far as a chess game reads it.
pub enum RemoteMessage {
    /// The opponent moved the piece on square `from` to square `to`, each as (column, row).
    Move { from: (u64, u64), to: (u64, u64) },
    /// Someone joined this side's room.
    OpponentJoined,
    /// Anything else.
    Other,
}

/// A square as the network writes it, as a square of the board's type.
pub open spec fn square_of_pair(p: (u64, u64)) -> (usize, usize) {
    (p.0 as usize, p.1 as usize)
}

/// The opponent's move from `from` to `to` can be played: a game over the network, the
/// target on the board, and, when it is the opponent's turn in a running game, a piece on
/// `from` that can be moved there (see `move_ready`).
pub open spec fn remote_move_ok(g: ChessGame, from: (usize, usize), to: (usize, usize)) -> bool {
    &&& g.multiplayer is Some
    &&& g.turn != g.multiplayer->0 ==> on_board(to)
    &&& g.turn != g.multiplayer->0 && !is_over(g.state) ==> on_board(from) && move_ready(with_clicked(g, from), to)
}

/// `g` with the piece on `from` clicked.
pub open spec fn with_clicked(g: ChessGame, from: (usize, usize)) -> ChessGame {
    ChessGame { clicked_meeple: from, ..g }
}

/// What is left to do after a message of the opponent.
#[derive(Clone, Copy, PartialEq, Eq, Debug, Structural)]
pub enum RemoteOutcome {
    /// Nothing.
    Nothing,
    /// The opponent's move was played; what is left is as `move_meeple` says.
    Moved(MoveStep),
    /// The game started with this side waiting for the opponent's first move.
    AwaitFirstMove,
}

/// What is left to do after `move_meeple`.
#[derive(Clone, Copy, PartialEq, Eq, Debug, Structural)]
pub enum MoveStep {
    /// The game is over; nothing was moved.
    Ignored,
    /// The engine's pawn was promoted on the last row: the engine moves once more, and
    /// then `finish_move` completes this move.
    EngineMovesFirst,
    /// The move is complete.
    Finished,
}

/// A king moves two columns: a castling.
pub open spec fn is_castling(b: ChessBoard, frst: (usize, usize), scnd: (usize, usize)) -> bool {
    piece_at(b, frst)->0.typ == Type::King && (frst.0 == scnd.0 + 2 || scnd.0 == frst.0 + 2)
}

/// The corner the castling rook comes from, and the square it goes to.
pub open spec fn rook_squares(frst: (usize, usize), scnd: (usize, usize)) -> ((usize, usize), (usize, usize)) {
    if frst.0 < scnd.0 { ((7usize, scnd.1), (5usize, scnd.1)) } else { ((0usize, scnd.1), (3usize, scnd.1)) }
}

/// A pawn moves to an empty square beside an enemy pawn in its own row: en passant.
pub open spec fn is_en_passant(b: ChessBoard, frst: (usize, usize), scnd: (usize, usize)) -> bool {
    let frst_piece = piece_at(b, frst)->0;
    let side = piece_at(b, (scnd.0, frst.1));
    &&& frst_piece.typ == Type::Pawn
    &&& piece_at(b, scnd) is None
    &&& side is Some
    &&& side->0.typ == Type::Pawn
    &&& side->0.color != frst_piece.color
}

/// `b` with square `q` set to `v`.
pub open spec fn board_set(b: ChessBoard, q: (usize, usize), v: Option<Meeple>) -> ChessBoard {
    vstd::array::spec_array_update(b, q.0 as int, vstd::array::spec_array_update(b[q.0 as int], q.1 as int, v))
}

/// The board after the piece on `frst` moved to `scnd`: the rook of a castling moves
/// too, a pawn taken en passant leaves, and the moved piece counts one move more.
pub open spec fn moved_board(b: ChessBoard, frst: (usize, usize), scnd: (usize, usize)) -> ChessBoard {
    let b1 = if is_castling(b, frst, scnd) {
        board_after(b, rook_squares(frst, scnd).0, rook_squares(frst, scnd).1)
    } else if is_en_passant(b, frst, scnd) {
        board_set(b, (scnd.0, frst.1), None)
    } else {
        b
    };
    let b2 = board_after(b1, frst, scnd);
    let m = piece_at(b2, scnd)->0;
    board_set(b2, scnd, Some(Meeple { move_counter: (m.move_counter + 1) as u128, ..m }))
}

proof fn lemma_board_after_consistent(b: ChessBoard, from: (usize, usize), to: (usize, usize))
    requires
        board_consistent(b),
        on_board(from),
        on_board(to),
    ensures
        board_consistent(board_after(b, from, to)),
{
    let b2 = board_after(b, from, to);
    assert forall|x: int, y: int| 0 <= x < 8 && 0 <= y < 8 implies
        (#[trigger] b2[x][y] matches Some(m) ==> m.pos == (x as usize, y as usize)) by {
    }
}

proof fn lemma_board_set_consistent(b: ChessBoard, q: (usize, usize), v: Option<Meeple>)
    requires
        board_consistent(b),
        on_board(q),
        v matches Some(m) ==> m.pos == q,
    ensures
        board_consistent(board_set(b, q, v)),
{
    let b2 = board_set(b, q, v);
    assert forall|x: int, y: int| 0 <= x < 8 && 0 <= y < 8 implies
        (#[trigger] b2[x][y] matches Some(m) ==> m.pos == (x as usize, y as usize)) by {
    }
}

impl ChessGame {
    /// Counts one more move for the piece on `q`.
    fn count_move(&mut self, q: (usize, usize))
        requires
            on_board(q),
            piece_at(old(self).game_board, q) is Some,
            piece_at(old(self).game_board, q)->0.move_counter < u128::MAX,
        ensures
            final(self).game_board == board_set(old(self).game_board, q, Some(Meeple {
                move_counter: (piece_at(old(self).game_board, q)->0.move_counter + 1) as u128,
                ..piece_at(old(self).game_board, q)->0
            })),
            final(self).state == old(self).state,
            final(self).logs == old(self).logs,
            final(self).repeat == old(self).repeat,
            final(self).turn == old(self).turn,
            final(self).engine == old(self).engine,
            final(self).multiplayer == old(self).multiplayer,
            final(self).clicked_meeple == old(self).clicked_meeple,
            final(self).en_passant_pos == old(self).en_passant_pos,
            final(self).casteling_rights == old(self).casteling_rights,
            final(self).pawn_mutate == old(self).pawn_mutate,
            final(self).possible_bot_level == old(self).possible_bot_level,
            final(self).possible_moves == old(self).possible_moves,
            final(self).shown_moves == old(self).shown_moves,
    {
        let mut m = self.game_board[q.0][q.1].unwrap();
        m.move_counter = m.move_counter + 1;
        self.game_board[q.0][q.1] = Some(m);
        assert(self.game_board =~= board_set(old(self).game_board, q, Some(m)));
    }

    /// The board part of a move: see `moved_board`; the move is logged, the shown moves
    /// are cleared.
    fn make_move(&mut self, scnd: (usize, usize))
        requires
            old(self).wf(),
            on_board(scnd),
            ({
                let frst = old(self).clicked_meeple;
                let b = old(self).game_board;
                &&& on_board(frst)
                &&& piece_at(b, frst) is Some
                &&& piece_at(b, frst)->0.move_counter < u128::MAX
                &&& is_castling(b, frst, scnd) ==> piece_at(b, rook_squares(frst, scnd).0) is Some
                &&& is_castling(b, frst, scnd) ==> piece_at(b, rook_squares(frst, scnd).0)->0.move_counter < u128::MAX
            }),
        ensures
            final(self).wf(),
            final(self).game_board == moved_board(old(self).game_board, old(self).clicked_meeple, scnd),
            final(self).logs@ == old(self).logs@.push((old(self).clicked_meeple, scnd)),
            final(self).shown_moves is None,
            final(self).state == old(self).state,
            final(self).repeat == old(self).repeat,
            final(self).turn == old(self).turn,
            final(self).engine == old(self).engine,
            final(self).multiplayer == old(self).multiplayer,
            final(self).clicked_meeple == old(self).clicked_meeple,
            final(self).en_passant_pos == old(self).en_passant_pos,
            final(self).casteling_rights == old(self).casteling_rights,
            final(self).possible_moves == old(self).possible_moves,
            final(self).pawn_mutate == old(self).pawn_mutate,
            final(self).possible_bot_level == old(self).possible_bot_level,
    {
        let ghost g0 = *self;
        let frst = self.clicked_meeple;
        if self.check_casteling(frst, scnd) {
            self.casteling_meeple(frst, scnd);
            proof {
                let rs = rook_squares(frst, scnd);
                lemma_board_after_consistent(g0.game_board, rs.0, rs.1);
            }
        } else if self.check_en_passant(frst, scnd) {
            self.game_board[scnd.0][frst.1] = None;
            proof {
                assert(self.game_board =~= board_set(g0.game_board, (scnd.0, frst.1), None));
                lemma_board_set_consistent(g0.game_board, (scnd.0, frst.1), None);
            }
        }
        let ghost b1 = self.game_board;
        proof {
            assert(board_consistent(b1));
            assert(piece_at(b1, frst) is Some);
        }
        walk_and_replace(frst, scnd, &mut self.game_board);
        proof {
            lemma_board_after_consistent(b1, frst, scnd);
        }
        let ghost b2 = self.game_board;
        self.count_move(scnd);
        proof {
            lemma_board_set_consistent(b2, scnd, Some(Meeple { move_counter: (piece_at(b2, scnd)->0.move_counter + 1) as u128, ..piece_at(b2, scnd)->0 }));
            assert(board_consistent(self.game_board));
        }
        self.logs.push((frst, scnd));
        self.shown_moves = None;
    }

    /// Moves the clicked piece to `scnd`: the rook of a castling moves along, a pawn taken
    /// en passant leaves the board, the piece counts one move more, the move is logged
    /// and the shown moves are cleared. A pawn on the last row is promoted (or waits for
    /// the player's choice). Unless the engine now moves first, the move is completed as
    /// `finish_move` says. Nothing happens once the game is over.
    pub fn move_meeple(&mut self, scnd: (usize, usize)) -> (r: MoveStep)
        requires
            old(self).wf(),
            on_board(scnd),
            !is_over(old(self).state) ==> {
                let frst = old(self).clicked_meeple;
                let b = old(self).game_board;
                &&& on_board(frst)
                &&& piece_at(b, frst) is Some
                &&& piece_at(b, frst)->0.move_counter < u128::MAX
                &&& is_castling(b, frst, scnd) ==> piece_at(b, rook_squares(frst, scnd).0) is Some
                &&& is_castling(b, frst, scnd) ==> piece_at(b, rook_squares(frst, scnd).0)->0.move_counter < u128::MAX
            },
        ensures
            final(self).wf(),
            meeple_moved(*old(self), scnd, r, *final(self)),
    {
        if self.state == ChessState::TieByTripleRepetition {
            return MoveStep::Ignored;
        }
        if let ChessState::Won(_) = self.state {
            return MoveStep::Ignored;
        }
        self.make_move(scnd);
        let ghost g1 = *self;
        proof {
            assert(g1.wf());
        }
        if self.check_pawn_mutate(scnd) {
            proof {
                let q = piece_at(g1.game_board, scnd)->0;
                lemma_board_set_consistent(g1.game_board, scnd, Some(Meeple { typ: Type::Queen, value: 90, ..q }));
            }
            return MoveStep::EngineMovesFirst;
        }
        proof {
            assert(forall|i: int| 0 <= i < self.repeat@.len() ==> (#[trigger] self.repeat@[i]).1 <= 2);
        }
        self.finish_move();
        MoveStep::Finished
    }

    /// Completes a move: the other side is to move, the game runs on, the legal moves of
    /// the side now to move are found (no move at all: the other side has won), and the
    /// position is counted (the third time: a tie).
    pub fn finish_move(&mut self)
        requires
            old(self).wf(),
            forall|i: int| 0 <= i < old(self).repeat@.len() ==> (#[trigger] old(self).repeat@[i]).1 <= 2,
        ensures
            final(self).wf(),
            finished(old(self).turn, old(self).en_passant_pos, old(self).casteling_rights, old(self).repeat@, *final(self), old(self).game_board),
            final(self).game_board == old(self).game_board,
            final(self).logs == old(self).logs,
            final(self).shown_moves == old(self).shown_moves,
            final(self).clicked_meeple == old(self).clicked_meeple,
            final(self).pawn_mutate == old(self).pawn_mutate,
            final(self).engine == old(self).engine,
            final(self).possible_bot_level == old(self).possible_bot_level,
            final(self).multiplayer == old(self).multiplayer,
    {
        self.turn = opposite_color(self.turn);
        self.state = ChessState::Running;
        self.get_all_possible_moves();
        self.triple_repetition();
        proof {
            reveal(finished);
        }
    }
}

/// The clicked piece can be moved to `to`: a piece stands on the clicked square and can
/// count one move more, and a castling finds its rook, which can too.
pub open spec fn move_ready(g: ChessGame, to: (usize, usize)) -> bool {
    let frst = g.clicked_meeple;
    let b = g.game_board;
    &&& on_board(frst)
    &&& piece_at(b, frst) is Some
    &&& piece_at(b, frst)->0.move_counter < u128::MAX
    &&& is_castling(b, frst, to) ==> piece_at(b, rook_squares(frst, to).0) is Some
    &&& is_castling(b, frst, to) ==> piece_at(b, rook_squares(frst, to).0)->0.move_counter < u128::MAX
}

/// A click on `pos` moves the clicked piece: no pawn waits for its promotion, and `pos`
/// is among the shown moves.
pub open spec fn click_moves(g: ChessGame, pos: (usize, usize)) -> bool {
    !g.pawn_mutate && (g.shown_moves matches Some(m) && m@.contains(pos))
}

/// `g1` is `g0` after its clicked piece was moved to `scnd` with `r` left to do: nothing
/// happens once the game is over (`Ignored`); otherwise the move is logged, the shown
/// moves are cleared, and either the engine's pawn became a queen and the engine moves
/// first, or the move is complete as `finished` says.
pub open spec fn meeple_moved(g0: ChessGame, scnd: (usize, usize), r: MoveStep, g1: ChessGame) -> bool {
    let frst = g0.clicked_meeple;
    let b = moved_board(g0.game_board, frst, scnd);
    &&& (r == MoveStep::Ignored) == is_over(g0.state)
    &&& r == MoveStep::Ignored ==> g1 == g0
    &&& r != MoveStep::Ignored ==> {
        &&& g1.logs@ == g0.logs@.push((frst, scnd))
        &&& g1.shown_moves is None
        &&& g1.engine == g0.engine
        &&& g1.multiplayer == g0.multiplayer
        &&& g1.clicked_meeple == frst
        &&& r == MoveStep::EngineMovesFirst ==> {
            &&& promotes_for_engine(b, scnd, g0.engine)
            &&& g1.game_board == board_set(b, scnd, Some(Meeple { typ: Type::Queen, value: 90, ..piece_at(b, scnd)->0 }))
            &&& g1.turn == g0.turn
            &&& !g1.pawn_mutate
            &&& g1.state == g0.state
            &&& g1.repeat == g0.repeat
        }
        &&& r == MoveStep::Finished ==> {
            &&& !promotes_for_engine(b, scnd, g0.engine)
            &&& g1.game_board == b
            &&& g1.pawn_mutate == (promotes(b, scnd) || g0.pawn_mutate)
            &&& finished(g0.turn, g0.en_passant_pos, g0.casteling_rights, g0.repeat@, g1, b)
        }
    }
}

/// A pawn stands on the last row on `q`.
pub open spec fn promotes(b: ChessBoard, q: (usize, usize)) -> bool {
    let p = piece_at(b, q);
    p is Some && p->0.typ == Type::Pawn
        && ((p->0.color == Color::White && p->0.pos.1 == 0) || (p->0.color == Color::Black && p->0.pos.1 == 7))
}

/// The engine's own pawn stands on the last row on `q`.
pub open spec fn promotes_for_engine(b: ChessBoard, q: (usize, usize), engine: Option<Engine>) -> bool {
    promotes(b, q) && (engine matches Some(bot) && bot.color == piece_at(b, q)->0.color)
}

/// What completing a move on board `b` gives, from the side `turn0` that moved, the en
/// passant square, castling rights and repetition table before: the other side to move,
/// its legal moves, the game won by the mover when that side has none, the position
/// counted (a tie the third time), the en passant square and castling rights of the last
/// piece of the side's list.
#[verifier::opaque]
pub open spec fn finished(turn0: Color, ep0: Option<(usize, usize)>, rights0: ((bool, bool), (bool, bool)),
    repeat0: Seq<(Vec<char>, u8)>, g: ChessGame, b: ChessBoard) -> bool {
    let turn = other_color(turn0);
    let last_move = g.logs@.last();
    let own = side_list(b, turn, true);
    let k = position_key(b, turn, g.casteling_rights, g.en_passant_pos);
    &&& g.turn == turn
    &&& table_holds(g.possible_moves, |x: int, y: int| legal_entry(b, turn, last_move, x, y))
    &&& g.en_passant_pos == if own.len() == 0 { ep0 } else { ep_target(b, own.last(), last_move) }
    &&& g.casteling_rights == if own.len() == 0 { rights0 } else { ((false, false), (false, false)) }
    &&& count_of(g.repeat@, k) == count_of(repeat0, k) + 1
    &&& forall|k2: Seq<char>| k2 != k ==> #[trigger] count_of(g.repeat@, k2) == count_of(repeat0, k2)
    &&& g.state == if count_of(g.repeat@, k) >= 3 {
        ChessState::TieByTripleRepetition
    } else if !side_can_move(b, turn, last_move) {
        ChessState::Won(other_color(turn))
    } else {
        ChessState::Running
    }
}

impl ChessGame {
    /// Whether the engine is to move now.
    pub fn engine_to_move(&self) -> (r: bool)
        ensures
            r == engine_moves(*self),
    {
        match self.engine {
            Some(bot) => bot.color == self.turn && !self.pawn_mutate,
            None => false,
        }
    }

    /// The engine found no move: the other side has won.
    pub fn engine_found_no_move(&mut self)
        requires
            old(self).wf(),
        ensures
            final(self).wf(),
            final(self).state == ChessState::Won(other_color(old(self).turn)),
            final(self).game_board == old(self).game_board,
            final(self).turn == old(self).turn,
            final(self).logs == old(self).logs,
            final(self).repeat == old(self).repeat,
            final(self).engine == old(self).engine,
            final(self).multiplayer == old(self).multiplayer,
    {
        self.state = ChessState::Won(opposite_color(self.turn));
    }

    /// The move to send to the opponent over the network: the last move, once it is the
    /// opponent's turn.
    pub fn pending_network_move(&self) -> (r: Option<Move>)
        requires
            self.logs@.len() > 0,
        ensures
            r == if (self.multiplayer matches Some(c) && c != self.turn) { Some(self.logs@.last()) } else { None },
    {
        if let Some(multiplayer_color) = self.multiplayer {
            if multiplayer_color != self.turn {
                return Some(self.logs[self.logs.len() - 1]);
            }
        }
        None
    }

    /// Whether the clicked piece can be moved to `to` (see `move_ready`); once the game
    /// is over every move is possible, since none is made.
    pub fn move_possible(&self, to: (usize, usize)) -> (r: bool)
        requires
            on_board(to),
            board_consistent(self.game_board),
        ensures
            r == (is_over(self.state) || move_ready(*self, to)),
    {
        if self.state == ChessState::TieByTripleRepetition {
            return true;
        }
        if let ChessState::Won(_) = self.state {
            return true;
        }
        self.move_ready_from(self.clicked_meeple, to)
    }

    /// Whether the piece on `frst`, once clicked, can be moved to `to` (see `move_ready`).
    pub fn move_ready_from(&self, frst: (usize, usize), to: (usize, usize)) -> (r: bool)
        requires
            on_board(to),
            board_consistent(self.game_board),
        ensures
            r == move_ready(with_clicked(*self, frst), to),
    {
        if frst.0 >= 8 || frst.1 >= 8 {
            return false;
        }
        let piece = match self.game_board[frst.0][frst.1] {
            Some(m) => m,
            None => {
                return false;
            },
        };
        if piece.move_counter == u128::MAX {
            return false;
        }
        if self.check_casteling(frst, to) {
            let rook_x: usize = if frst.0 < to.0 { 7 } else { 0 };
            match self.game_board[rook_x][to.1] {
                Some(rook) => rook.move_counter < u128::MAX,
                None => false,
            }
        } else {
            true
        }
    }

    /// Whether a click on `pos` makes a move (see `click_moves`).
    pub fn click_makes_move(&self, pos: (usize, usize)) -> (r: bool)
        ensures
            r == click_moves(*self, pos),
    {
        if self.pawn_mutate {
            return false;
        }
        match &self.shown_moves {
            Some(m) => {
                let mut i: usize = 0;
                while i < m.len()
                    invariant
                        0 <= i <= m@.len(),
                        !self.pawn_mutate,
                        self.shown_moves matches Some(v) && v@ == m@,
                        forall|j: int| 0 <= j < i ==> m@[j] != pos,
                    decreases m@.len() - i,
                {
                    if m[i].0 == pos.0 && m[i].1 == pos.1 {
                        assert(m@[i as int] == pos);
                        return true;
                    }
                    i = i + 1;
                }
                false
            },
            None => false,
        }
    }

    /// A click on square `pos`: nothing while a pawn waits for its promotion; on one of
    /// the shown moves the clicked piece moves there (`Some` of what is left to do, as
    /// `move_meeple` says); elsewhere the moves of the piece on `pos` are shown (`None`).
    pub fn square_clicked(&mut self, pos: (usize, usize)) -> (r: Option<MoveStep>)
        requires
            old(self).wf(),
            on_board(pos),
            click_moves(*old(self), pos) && !is_over(old(self).state) ==> move_ready(*old(self), pos),
        ensures
            final(self).wf(),
            old(self).pawn_mutate ==> r is None && *final(self) == *old(self),
            click_moves(*old(self), pos) ==> (r matches Some(step) && meeple_moved(*old(self), pos, step, *final(self))),
            !old(self).pawn_mutate && !click_moves(*old(self), pos) ==> {
                let blocked = is_over(old(self).state) || (old(self).multiplayer matches Some(c) && c != old(self).turn);
                &&& r is None
                &&& blocked ==> *final(self) == *old(self)
                &&& !blocked ==> final(self).clicked_meeple == pos
                &&& !blocked ==> (final(self).shown_moves is Some <==> old(self).possible_moves[pos.0 as int][pos.1 as int] is Some)
                &&& !blocked && final(self).shown_moves is Some ==>
                    final(self).shown_moves->0@ == old(self).possible_moves[pos.0 as int][pos.1 as int]->0@
                &&& final(self).state == old(self).state
                &&& final(self).game_board == old(self).game_board
                &&& final(self).logs == old(self).logs
                &&& final(self).turn == old(self).turn
            },
    {
        if self.pawn_mutate {
            return None;
        }
        if self.click_makes_move(pos) {
            Some(self.move_meeple(pos))
        } else {
            let ghost g0 = *self;
            self.show_moves(pos);
            proof {
                let blocked = is_over(g0.state) || (g0.multiplayer matches Some(c) && c != g0.turn);
                if blocked {
                    assert(*self == g0);
                }
            }
            None
        }
    }

    /// After the engine's extra move that follows its promotion: the move is completed
    /// as `finish_move` says, unless that extra move already ended the game by a third
    /// repetition (then nothing changes).
    pub fn complete_after_promotion(&mut self)
        requires
            old(self).wf(),
        ensures
            final(self).wf(),
            (forall|i: int| 0 <= i < old(self).repeat@.len() ==> (#[trigger] old(self).repeat@[i]).1 <= 2) ==>
                finished(old(self).turn, old(self).en_passant_pos, old(self).casteling_rights, old(self).repeat@, *final(self), old(self).game_board)
                && final(self).game_board == old(self).game_board
                && final(self).logs == old(self).logs,
            !(forall|i: int| 0 <= i < old(self).repeat@.len() ==> (#[trigger] old(self).repeat@[i]).1 <= 2) ==>
                *final(self) == *old(self),
    {
        let mut i: usize = 0;
        while i < self.repeat.len()
            invariant
                0 <= i <= self.repeat@.len(),
                *self == *old(self),
                self.wf(),
                forall|j: int| 0 <= j < i ==> (#[trigger] self.repeat@[j]).1 <= 2,
            decreases self.repeat@.len() - i,
        {
            if self.repeat[i].1 > 2 {
                return;
            }
            i = i + 1;
        }
        self.finish_move();
    }

    /// A move received from the opponent: ignored (`None`) while it is this player's
    /// turn; otherwise the piece on `from` is clicked and moved to `to`.
    pub fn receive_move(&mut self, from: (usize, usize), to: (usize, usize)) -> (r: Option<MoveStep>)
        requires
            old(self).wf(),
            old(self).multiplayer is Some,
            old(self).turn != old(self).multiplayer->0 ==> on_board(to),
            old(self).turn != old(self).multiplayer->0 && !is_over(old(self).state) ==> {
                let b = old(self).game_board;
                &&& on_board(from)
                &&& piece_at(b, from) is Some
                &&& piece_at(b, from)->0.move_counter < u128::MAX
                &&& is_castling(b, from, to) ==> piece_at(b, rook_squares(from, to).0) is Some
                &&& is_castling(b, from, to) ==> piece_at(b, rook_squares(from, to).0)->0.move_counter < u128::MAX
            },
        ensures
            final(self).wf(),
            (r is None) == (old(self).turn == old(self).multiplayer->0),
            r is None ==> *final(self) == *old(self),
            r matches Some(step) ==> (step == MoveStep::Ignored) == is_over(old(self).state),
            r matches Some(step) ==> meeple_moved(with_clicked(*old(self), from), to, step, *final(self)),
    {
        let mp = match self.multiplayer {
            Some(c) => c,
            None => {
                return None;
            },
        };
        if self.turn == mp {
            return None;
        }
        self.clicked_meeple = from;
        Some(self.move_meeple(to))
    }

    /// Whether the opponent's move from `from` to `to` can be played (see
    /// `remote_move_ok`).
    pub fn remote_move_possible(&self, from: (u64, u64), to: (u64, u64)) -> (r: bool)
        requires
            self.wf(),
        ensures
            r == remote_move_ok(*self, square_of_pair(from), square_of_pair(to)),
    {
        let f = (from.0 as usize, from.1 as usize);
        let t = (to.0 as usize, to.1 as usize);
        let mp = match self.multiplayer {
            Some(c) => c,
            None => {
                return false;
            },
        };
        if self.turn == mp {
            return true;
        }
        if t.0 >= 8 || t.1 >= 8 {
            return false;
        }
        if self.state == ChessState::TieByTripleRepetition {
            return true;
        }
        if let ChessState::Won(_) = self.state {
            return true;
        }
        f.0 < 8 && f.1 < 8 && self.move_ready_from(f, t)
    }

    /// A message of the opponent over the network: its move from `from` to `to` is
    /// played as `receive_move` says; the opponent's arrival starts the game while this
    /// side waits in its room (as `start_multiplayer_game` says; `true`: this side now
    /// waits for the opponent's first move) and changes nothing otherwise; any other
    /// message changes nothing.
    pub fn on_remote(&mut self, m: RemoteMessage) -> (r: RemoteOutcome)
        requires
            old(self).wf(),
            m matches RemoteMessage::Move { from, to } ==> remote_move_ok(*old(self), square_of_pair(from), square_of_pair(to)),
        ensures
            final(self).wf(),
            match m {
                RemoteMessage::Move { from, to } => if old(self).turn == old(self).multiplayer->0 {
                    r == RemoteOutcome::Nothing && *final(self) == *old(self)
                } else {
                    r matches RemoteOutcome::Moved(step)
                        && meeple_moved(with_clicked(*old(self), square_of_pair(from)), square_of_pair(to), step, *final(self))
                },
                RemoteMessage::OpponentJoined => if old(self).state == ChessState::WaitingForOpponent {
                    &&& r == RemoteOutcome::AwaitFirstMove
                    &&& *final(self) == (ChessGame {
                        multiplayer: Some(Color::Black),
                        state: ChessState::MultiplayerAsBlack,
                        ..*old(self)
                    })
                } else {
                    r == RemoteOutcome::Nothing && *final(self) == *old(self)
                },
                RemoteMessage::Other => r == RemoteOutcome::Nothing && *final(self) == *old(self),
            },
    {
        match m {
            RemoteMessage::Move { from, to } => {
                let f = (from.0 as usize, from.1 as usize);
                let t = (to.0 as usize, to.1 as usize);
                match self.receive_move(f, t) {
                    Some(step) => RemoteOutcome::Moved(step),
                    None => RemoteOutcome::Nothing,
                }
            },
            RemoteMessage::OpponentJoined => {
                if self.state == ChessState::WaitingForOpponent {
                    self.start_multiplayer_game();
                    RemoteOutcome::AwaitFirstMove
                } else {
                    RemoteOutcome::Nothing
                }
            },
            RemoteMessage::Other => RemoteOutcome::Nothing,
        }
    }

    /// The player chose a local game (the number of players is passed back).
    pub fn local_button_clicked(&mut self, player_counter: Option<u16>) -> (r: Option<u16>)
        ensures
            r == player_counter,
            old(self).wf() && !is_over(old(self).state) ==> final(self).wf(),
            *final(self) == (ChessGame { state: ChessState::PlayLocal, ..*old(self) }),
    {
        self.state = ChessState::PlayLocal;
        player_counter
    }

    /// The player chose a game against the engine, which plays Black at the given level
    /// (passed back).
    pub fn bot_button_clicked(&mut self, bot_level: Option<u16>) -> (r: Option<u16>)
        requires
            bot_level is Some,
        ensures
            r == bot_level,
            old(self).wf() && !is_over(old(self).state) ==> final(self).wf(),
            *final(self) == (ChessGame {
                state: ChessState::PlayVsBot,
                engine: Some(Engine { level: bot_level->0, color: Color::Black }),
                ..*old(self)
            }),
    {
        self.state = ChessState::PlayVsBot;
        self.engine = Some(Engine::new(bot_level.unwrap(), Color::Black));
        bot_level
    }

    /// A room was created on the server: this player plays White and waits.
    pub fn host_created(&mut self)
        ensures
            old(self).wf() && !is_over(old(self).state) ==> final(self).wf(),
            *final(self) == (ChessGame {
                state: ChessState::WaitingForOpponent,
                multiplayer: Some(Color::White),
                ..*old(self)
            }),
    {
        self.multiplayer = Some(Color::White);
        self.state = ChessState::WaitingForOpponent;
    }

    /// A network game starts: the player who joined plays White, the host (who was
    /// waiting in its room) plays Black.
    pub fn start_multiplayer_game(&mut self)
        ensures
            old(self).wf() && !is_over(old(self).state) ==> final(self).wf(),
            *final(self) == if old(self).state != ChessState::WaitingForOpponent {
                ChessGame { multiplayer: Some(Color::White), state: ChessState::MultiplayerAsWhite, ..*old(self) }
            } else {
                ChessGame { multiplayer: Some(Color::Black), state: ChessState::MultiplayerAsBlack, ..*old(self) }
            },
    {
        if self.state != ChessState::WaitingForOpponent {
            self.multiplayer = Some(Color::White);
            self.state = ChessState::MultiplayerAsWhite;
        } else {
            self.multiplayer = Some(Color::Black);
            self.state = ChessState::MultiplayerAsBlack;
        }
    }

    /// A new game that keeps the engine and starts running at once.
    pub fn reset(&mut self)
        ensures
            final(self).wf(),
            final(self).state == ChessState::Running,
            final(self).engine == old(self).engine,
            forall|x: int, y: int| 0 <= x < 8 && 0 <= y < 8 ==> #[trigger] final(self).game_board[x][y] == initial_piece(x, y),
            final(self).turn == Color::White,
            final(self).logs@ == seq![no_move()],
            final(self).repeat@.len() == 0,
            final(self).multiplayer is None,
    {
        let bot = self.engine;
        *self = ChessGame::new();
        self.engine = bot;
        self.state = ChessState::Running;
    }
}

} // verus!
