use vstd::prelude::*;

verus! {

/// The colour of a chess piece.
#[derive(Copy, Clone, PartialEq, Debug, Hash, Eq, Structural)]
pub enum Color {
    White,
    Black,
}

pub open spec fn other_color(c: Color) -> Color {
    match c {
        Color::White => Color::Black,
        Color::Black => Color::White,
    }
}

/// The other colour of the other colour is the colour itself.
pub proof fn lemma_other_color_twice(c: Color)
    ensures
        other_color(other_color(c)) == c,
        other_color(c) != c,
{
}

/// The other colour.
pub fn opposite_color(color: Color) -> (r: Color)
    ensures
        r == other_color(color),
{
    if color == Color::White {
        return Color::Black;
    }
    Color::White
}

/// The kind of a chess piece.
#[derive(Copy, Clone, PartialEq, Eq, Debug, Structural)]
pub enum Type {
    Pawn,
    Knight,
    Bishop,
    Rook,
    Queen,
    King,
}

/// A chess piece ("meeple") with its square, kind, colour, the number of moves it has
/// made, and its material value in tenths of a pawn.
#[derive(Copy, Clone, PartialEq, Eq, Debug)]
pub struct Meeple {
    pub pos: (usize, usize),
    pub typ: Type,
    pub color: Color,
    pub move_counter: u128,
    pub value: u16,
}

/// The board: `board[x][y]` holds the piece on column `x`, row `y` (row 0 is Black's
/// back rank).
pub type ChessBoard = [[Option<Meeple>; 8]; 8];

/// A move from one square to another; `((42, 42), (42, 42))` stands for "no move yet".
pub type Move = ((usize, usize), (usize, usize));

/// The square that stands for "off the board".
pub open spec fn off_board() -> (usize, usize) {
    (42, 42)
}

pub open spec fn no_move() -> Move {
    ((42, 42), (42, 42))
}

pub open spec fn on_board(p: (usize, usize)) -> bool {
    p.0 < 8 && p.1 < 8
}

/// The piece on square `p`.
pub open spec fn piece_at(b: ChessBoard, p: (usize, usize)) -> Option<Meeple> {
    b[p.0 as int][p.1 as int]
}

/// `pos` moved by `(dx, dy)`, or the off-board square when that leaves the board.
pub open spec fn shifted(pos: (usize, usize), d: (int, int)) -> (usize, usize) {
    let x = pos.0 + d.0;
    let y = pos.1 + d.1;
    if 0 <= x <= 7 && 0 <= y <= 7 {
        (x as usize, y as usize)
    } else {
        off_board()
    }
}

impl Meeple {
    pub fn new(point: (usize, usize), meeple_type: Type, meeple_color: Color, meeple_value: u16) -> (m: Meeple)
        ensures
            m == (Meeple { pos: point, typ: meeple_type, color: meeple_color, move_counter: 0, value: meeple_value }),
    {
        Meeple { pos: point, typ: meeple_type, color: meeple_color, move_counter: 0, value: meeple_value }
    }

    /// The square `self.pos + (x_add, y_add)`, or `(42, 42)` off the board.
    fn pos_add(&self, add: (i8, i8)) -> (r: (usize, usize))
        requires
            on_board(self.pos),
            -16 <= add.0 <= 16,
            -16 <= add.1 <= 16,
        ensures
            r == shifted(self.pos, (add.0 as int, add.1 as int)),
    {
        let (x_add, y_add) = add;
        let x_sum = self.pos.0 as i8 + x_add;
        let y_sum = self.pos.1 as i8 + y_add;
        if x_sum < 0 || x_sum > 7 || y_sum < 0 || y_sum > 7 {
            return (42, 42);
        }
        (x_sum as usize, y_sum as usize)
    }

    /// Whether the square is on the board (the off-board square is not).
    fn pos_is_valid(&self, check_pos: (usize, usize)) -> (r: bool)
        requires
            check_pos == off_board() || on_board(check_pos),
        ensures
            r == on_board(check_pos),
    {
        if check_pos.0 == 42 {
            return false;
        }
        true
    }

    fn pos_is_none(&self, check_pos: (usize, usize), chess_board: &ChessBoard) -> (r: bool)
        requires
            on_board(check_pos),
        ensures
            r == (piece_at(*chess_board, check_pos) is None),
    {
        match get_meeple_at(chess_board, check_pos) {
            None => true,
            _ => false,
        }
    }

    fn pos_is_opposite_color(&self, check_pos: (usize, usize), chess_board: &ChessBoard) -> (r: bool)
        requires
            on_board(check_pos),
        ensures
            r == (piece_at(*chess_board, check_pos) matches Some(m) && m.color != self.color),
    {
        match get_meeple_at(chess_board, check_pos) {
            Some(meeple) => {
                if meeple.color != self.color {
                    true
                } else {
                    false
                }
            },
            _ => false,
        }
    }

    fn pos_is_same_color(&self, check_pos: (usize, usize), chess_board: &ChessBoard) -> (r: bool)
        requires
            on_board(check_pos),
        ensures
            r == (piece_at(*chess_board, check_pos) matches Some(m) && m.color == self.color),
    {
        match get_meeple_at(chess_board, check_pos) {
            Some(meeple) => {
                if meeple.color == self.color {
                    true
                } else {
                    false
                }
            },
            _ => false,
        }
    }

    fn pos_is_opposite_color_or_none(&self, check_pos: (usize, usize), chess_board: &ChessBoard) -> (r: bool)
        requires
            on_board(check_pos),
        ensures
            r == (piece_at(*chess_board, check_pos) matches Some(m) ==> m.color != self.color),
    {
        match get_meeple_at(chess_board, check_pos) {
            Some(meeple) => {
                if meeple.color != self.color {
                    true
                } else {
                    false
                }
            },
            None => true,
        }
    }

    /// The letter of the piece in the position key: upper case for White, lower case
    /// for Black; pawns are `W`/`w`.
    pub fn get_char(&self) -> (r: char)
        ensures
            r == piece_char(self.typ, self.color),
    {
        match (self.typ, self.color) {
            (Type::Pawn, Color::White) => 'W',
            (Type::Knight, Color::White) => 'N',
            (Type::Bishop, Color::White) => 'B',
            (Type::Rook, Color::White) => 'R',
            (Type::Queen, Color::White) => 'Q',
            (Type::King, Color::White) => 'K',
            (Type::Pawn, Color::Black) => 'w',
            (Type::Knight, Color::Black) => 'n',
            (Type::Bishop, Color::Black) => 'b',
            (Type::Rook, Color::Black) => 'r',
            (Type::Queen, Color::Black) => 'q',
            (Type::King, Color::Black) => 'k',
        }
    }
}

pub open spec fn piece_char(t: Type, c: Color) -> char {
    let upper = match t {
        Type::Pawn => 'W',
        Type::Knight => 'N',
        Type::Bishop => 'B',
        Type::Rook => 'R',
        Type::Queen => 'Q',
        Type::King => 'K',
    };
    let lower = match t {
        Type::Pawn => 'w',
        Type::Knight => 'n',
        Type::Bishop => 'b',
        Type::Rook => 'r',
        Type::Queen => 'q',
        Type::King => 'k',
    };
    if c == Color::White { upper } else { lower }
}

/// The piece on a square.
pub fn get_meeple_at(chess_board: &ChessBoard, p: (usize, usize)) -> (r: Option<Meeple>)
    requires
        on_board(p),
    ensures
        r == piece_at(*chess_board, p),
{
    let (x, y) = p;
    chess_board[x][y]
}

/// The square `q` is free or holds a piece of another colour than `c`.
pub open spec fn free_or_enemy(b: ChessBoard, q: (usize, usize), c: Color) -> bool {
    piece_at(b, q) matches Some(o) ==> o.color != c
}

pub open spec fn enemy_at(b: ChessBoard, q: (usize, usize), c: Color) -> bool {
    piece_at(b, q) matches Some(o) && o.color != c
}

/// The targets of single jumps by the offsets `offs[0..n]` that land on the board on a
/// free or enemy square, in the order of the offsets.
pub open spec fn jump_moves(b: ChessBoard, m: Meeple, offs: Seq<(int, int)>, n: int) -> Seq<(usize, usize)>
    decreases n,
{
    if n <= 0 {
        Seq::empty()
    } else {
        let q = shifted(m.pos, offs[n - 1]);
        if on_board(q) && free_or_enemy(b, q, m.color) {
            jump_moves(b, m, offs, n - 1).push(q)
        } else {
            jump_moves(b, m, offs, n - 1)
        }
    }
}

pub open spec fn knight_offsets() -> Seq<(int, int)> {
    seq![(2, 1), (2, -1), (-2, 1), (-2, -1), (1, 2), (-1, 2), (1, -2), (-1, -2)]
}

pub open spec fn king_offsets() -> Seq<(int, int)> {
    seq![(-1, -1), (0, -1), (1, -1), (-1, 0), (1, 0), (-1, 1), (0, 1), (1, 1)]
}

pub open spec fn rook_dirs() -> Seq<(int, int)> {
    seq![(1, 0), (-1, 0), (0, 1), (0, -1)]
}

pub open spec fn bishop_dirs() -> Seq<(int, int)> {
    seq![(1, 1), (-1, -1), (1, -1), (-1, 1)]
}

/// The squares along direction `d` from step `k` on: free squares, and the first
/// enemy square (which ends the ray); the ray also ends at the edge of the board or
/// before an own piece.
pub open spec fn ray(b: ChessBoard, m: Meeple, d: (int, int), k: int) -> Seq<(usize, usize)>
    decreases 9 - k,
{
    if k < 1 || k > 8 {
        Seq::empty()
    } else {
        let q = shifted(m.pos, (d.0 * k, d.1 * k));
        if !on_board(q) || (piece_at(b, q) matches Some(o) && o.color == m.color) {
            Seq::empty()
        } else if enemy_at(b, q, m.color) {
            seq![q]
        } else {
            seq![q] + ray(b, m, d, k + 1)
        }
    }
}

/// The rays along the directions `dirs[0..n]`, one after another.
pub open spec fn slide_moves(b: ChessBoard, m: Meeple, dirs: Seq<(int, int)>, n: int) -> Seq<(usize, usize)>
    decreases n,
{
    if n <= 0 {
        Seq::empty()
    } else {
        slide_moves(b, m, dirs, n - 1) + ray(b, m, dirs[n - 1], 1)
    }
}

/// The direction in which a pawn of colour `c` moves.
pub open spec fn pawn_step(c: Color) -> int {
    if c == Color::White { -1 } else { 1 }
}

/// The row on which a pawn of colour `c` may take en passant.
pub open spec fn en_passant_row(c: Color) -> usize {
    if c == Color::White { 3 } else { 4 }
}

/// An en passant capture to side `dx` is possible: the pawn stands on its en passant
/// row, beside it stands an enemy pawn that has moved once, and that pawn made the last
/// move.
pub open spec fn en_passant_ok(b: ChessBoard, m: Meeple, last_move: Move, dx: int) -> bool {
    let side = shifted(m.pos, (dx, 0));
    &&& m.pos.1 == en_passant_row(m.color)
    &&& on_board(side)
    &&& piece_at(b, side) matches Some(o) && o.color != m.color && o.typ == Type::Pawn && o.move_counter == 1
    &&& last_move.1 == side
}

/// The pawn's moves in order: one step ahead to a free square, then (on its first move)
/// two steps if both are free, the diagonal captures to the right and to the left, and
/// the en passant captures to the left and to the right; with the en passant target
/// square (the last one found).
pub open spec fn pawn_moves(b: ChessBoard, m: Meeple, last_move: Move) -> (Seq<(usize, usize)>, Option<(usize, usize)>) {
    let f = pawn_step(m.color);
    let one = shifted(m.pos, (0, f));
    let two = shifted(m.pos, (0, 2 * f));
    let ahead = if on_board(one) && piece_at(b, one) is None {
        seq![one] + if m.move_counter == 0 && on_board(two) && piece_at(b, two) is None { seq![two] } else { Seq::empty() }
    } else {
        Seq::empty()
    };
    let right = shifted(m.pos, (1, f));
    let left = shifted(m.pos, (-1, f));
    let take_right = if on_board(right) && enemy_at(b, right, m.color) { seq![right] } else { Seq::empty() };
    let take_left = if on_board(left) && enemy_at(b, left, m.color) { seq![left] } else { Seq::empty() };
    let ep_left = if en_passant_ok(b, m, last_move, -1) { seq![shifted(m.pos, (-1, f))] } else { Seq::empty() };
    let ep_right = if en_passant_ok(b, m, last_move, 1) { seq![shifted(m.pos, (1, f))] } else { Seq::empty() };
    let target = if en_passant_ok(b, m, last_move, 1) {
        Some(shifted(m.pos, (1, f)))
    } else if en_passant_ok(b, m, last_move, -1) {
        Some(shifted(m.pos, (-1, f)))
    } else {
        None
    };
    (ahead + take_right + take_left + ep_left + ep_right, target)
}

/// 1 while a move has been made, 0 for "no move yet" (castling is only looked at
/// when there was a last move).
pub open spec fn live(last_move: Move) -> int {
    if last_move == no_move() { 0 } else { 1 }
}

/// Some move in `moves` lands on one of `squares`.
pub open spec fn hits(moves: Seq<(usize, usize)>, squares: Seq<(usize, usize)>) -> bool {
    exists|j: int| 0 <= j < moves.len() && squares.contains(#[trigger] moves[j])
}

/// One of `opps[0..n]` reaches one of `squares` (looked at with no last move).
pub open spec fn attacked(b: ChessBoard, opps: Seq<Meeple>, squares: Seq<(usize, usize)>, n: int) -> bool
    decreases 1int, 0int, n,
{
    if n <= 0 {
        false
    } else {
        attacked(b, opps, squares, n - 1) || hits(moves_of(opps[n - 1], b, no_move(), Seq::empty()), squares)
    }
}

/// On `q` stands a rook of colour `c` that has not moved.
pub open spec fn unmoved_rook(b: ChessBoard, q: (usize, usize), c: Color) -> bool {
    piece_at(b, q) matches Some(r) && r.typ == Type::Rook && r.color == c && r.move_counter == 0
}

/// The castling targets: to the right (g-file) if f and g are free, the rook in the
/// corner has not moved and none of e..h is reached by an opponent; then to the left
/// (c-file) if b, c, d are free, the rook has not moved and none of a..e is reached.
pub open spec fn castling_moves(b: ChessBoard, m: Meeple, opps: Seq<Meeple>) -> Seq<(usize, usize)>
    decreases 1int, 1int, 0int,
{
    let y = m.pos.1;
    let right_free = piece_at(b, (5, y)) is None && piece_at(b, (6, y)) is None && unmoved_rook(b, (7, y), m.color);
    let left_free = piece_at(b, (3, y)) is None && piece_at(b, (2, y)) is None && piece_at(b, (1, y)) is None
        && unmoved_rook(b, (0, y), m.color);
    let right = if right_free && !attacked(b, opps, seq![(4usize, y), (5usize, y), (6usize, y), (7usize, y)], opps.len() as int) {
        seq![(6usize, y)]
    } else {
        Seq::empty()
    };
    let left = if left_free && !attacked(b, opps, seq![(4usize, y), (3usize, y), (2usize, y), (1usize, y), (0usize, y)], opps.len() as int) {
        seq![(2usize, y)]
    } else {
        Seq::empty()
    };
    right + left
}

/// The king's moves: one step in each direction, then castling when the king has not
/// moved and there was a last move.
pub open spec fn king_moves(b: ChessBoard, m: Meeple, last_move: Move, opps: Seq<Meeple>) -> Seq<(usize, usize)>
    decreases live(last_move), 2int, 0int,
{
    jump_moves(b, m, king_offsets(), 8) + if m.move_counter == 0 && last_move != no_move() {
        castling_moves(b, m, opps)
    } else {
        Seq::empty()
    }
}

/// The squares piece `m` can move to on board `b` (own king safety not considered).
pub open spec fn moves_of(m: Meeple, b: ChessBoard, last_move: Move, opps: Seq<Meeple>) -> Seq<(usize, usize)>
    decreases live(last_move), 3int, 0int,
{
    match m.typ {
        Type::Pawn => pawn_moves(b, m, last_move).0,
        Type::Knight => jump_moves(b, m, knight_offsets(), 8),
        Type::Bishop => slide_moves(b, m, bishop_dirs(), 4),
        Type::Rook => slide_moves(b, m, rook_dirs(), 4),
        Type::Queen => slide_moves(b, m, rook_dirs(), 4) + slide_moves(b, m, bishop_dirs(), 4),
        Type::King => king_moves(b, m, last_move, opps),
    }
}

/// The offsets of an array, as integer pairs.
pub open spec fn offsets_of<const N: usize>(arr: [(i8, i8); N]) -> Seq<(int, int)> {
    arr@.map_values(|p: (i8, i8)| (p.0 as int, p.1 as int))
}

fn hits_any(moves: &Vec<(usize, usize)>, squares: &Vec<(usize, usize)>) -> (r: bool)
    ensures
        r == hits(moves@, squares@),
{
    let mut i: usize = 0;
    while i < moves.len()
        invariant
            0 <= i <= moves@.len(),
            forall|j: int| 0 <= j < i ==> !squares@.contains(#[trigger] moves@[j]),
        decreases moves@.len() - i,
    {
        let (mx, my) = moves[i];
        let mut k: usize = 0;
        while k < squares.len()
            invariant
                0 <= k <= squares@.len(),
                0 <= i < moves@.len(),
                moves@[i as int] == (mx, my),
                forall|t: int| 0 <= t < k ==> squares@[t] != moves@[i as int],
            decreases squares@.len() - k,
        {
            let (sx, sy) = squares[k];
            if sx == mx && sy == my {
                assert(squares@[k as int] == moves@[i as int]);
                return true;
            }
            k = k + 1;
        }
        i = i + 1;
    }
    false
}

impl Meeple {
    fn jump_targets(&self, chess_board: &ChessBoard, offs: [(i8, i8); 8]) -> (r: Vec<(usize, usize)>)
        requires
            on_board(self.pos),
            forall|i: int| 0 <= i < 8 ==> -2 <= #[trigger] offs@[i].0 <= 2 && -2 <= offs@[i].1 <= 2,
        ensures
            r@ == jump_moves(*chess_board, *self, offsets_of(offs), 8),
    {
        let mut possible_moves: Vec<(usize, usize)> = Vec::new();
        let mut i: usize = 0;
        while i < 8
            invariant
                0 <= i <= 8,
                on_board(self.pos),
                forall|k: int| 0 <= k < 8 ==> -2 <= #[trigger] offs@[k].0 <= 2 && -2 <= offs@[k].1 <= 2,
                possible_moves@ == jump_moves(*chess_board, *self, offsets_of(offs), i as int),
            decreases 8 - i,
        {
            let added_pos = self.pos_add(offs[i]);
            if self.pos_is_valid(added_pos) && self.pos_is_opposite_color_or_none(added_pos, chess_board) {
                possible_moves.push(added_pos);
            }
            i = i + 1;
        }
        possible_moves
    }

    fn show_moves_knight(&self, chess_board: &ChessBoard) -> (r: Vec<(usize, usize)>)
        requires
            on_board(self.pos),
        ensures
            r@ == jump_moves(*chess_board, *self, knight_offsets(), 8),
    {
        let check_add_vec: [(i8, i8); 8] = [(2, 1), (2, -1), (-2, 1), (-2, -1), (1, 2), (-1, 2), (1, -2), (-1, -2)];
        assert(offsets_of(check_add_vec) =~= knight_offsets());
        self.jump_targets(chess_board, check_add_vec)
    }

    /// Appends the ray in direction `d` to `possible_moves`.
    fn push_ray(&self, chess_board: &ChessBoard, d: (i8, i8), possible_moves: &mut Vec<(usize, usize)>)
        requires
            on_board(self.pos),
            -1 <= d.0 <= 1,
            -1 <= d.1 <= 1,
            d.0 != 0 || d.1 != 0,
        ensures
            final(possible_moves)@ == old(possible_moves)@ + ray(*chess_board, *self, (d.0 as int, d.1 as int), 1),
    {
        let ghost dd = (d.0 as int, d.1 as int);
        let ghost start = possible_moves@;
        let mut run_var: i8 = 0;
        loop
            invariant_except_break
                0 <= run_var <= 7,
                possible_moves@ + ray(*chess_board, *self, dd, run_var + 1) == start + ray(*chess_board, *self, dd, 1),
            invariant
                on_board(self.pos),
                -1 <= d.0 <= 1,
                -1 <= d.1 <= 1,
                d.0 != 0 || d.1 != 0,
                dd == (d.0 as int, d.1 as int),
            ensures
                possible_moves@ == start + ray(*chess_board, *self, dd, 1),
            decreases 8 - run_var,
        {
            run_var = run_var + 1;
            let ghost k = run_var as int;
            let ghost before = possible_moves@;
            proof {
                assert(-8 <= d.0 * run_var <= 8 && -8 <= d.1 * run_var <= 8) by (nonlinear_arith)
                    requires
                        -1 <= d.0 <= 1,
                        -1 <= d.1 <= 1,
                        1 <= run_var <= 8,
                ;
            }
            let added_pos = self.pos_add((d.0 * run_var, d.1 * run_var));
            proof {
                assert((d.0 * run_var) as int == dd.0 * k);
                assert((d.1 * run_var) as int == dd.1 * k);
            }
            if self.pos_is_valid(added_pos) && !self.pos_is_same_color(added_pos, chess_board) {
                possible_moves.push(added_pos);
                if self.pos_is_opposite_color(added_pos, chess_board) {
                    assert(before.push(added_pos) =~= before + seq![added_pos]);
                    break;
                }
                proof {
                    assert(before.push(added_pos) + ray(*chess_board, *self, dd, k + 1)
                        =~= before + (seq![added_pos] + ray(*chess_board, *self, dd, k + 1)));
                    if k == 8 {
                        assert(dd.0 * k == dd.0 * 8);
                        assert(dd.1 * k == dd.1 * 8);
                        assert(false);
                    }
                }
            } else {
                assert(before =~= before + Seq::<(usize, usize)>::empty());
                break;
            }
        }
    }

    fn slide_targets(&self, chess_board: &ChessBoard, dirs: [(i8, i8); 4]) -> (r: Vec<(usize, usize)>)
        requires
            on_board(self.pos),
            forall|i: int| 0 <= i < 4 ==> -1 <= #[trigger] dirs@[i].0 <= 1 && -1 <= dirs@[i].1 <= 1
                && (dirs@[i].0 != 0 || dirs@[i].1 != 0),
        ensures
            r@ == slide_moves(*chess_board, *self, offsets_of(dirs), 4),
    {
        let mut possible_moves: Vec<(usize, usize)> = Vec::new();
        let mut i: usize = 0;
        while i < 4
            invariant
                0 <= i <= 4,
                on_board(self.pos),
                forall|k: int| 0 <= k < 4 ==> -1 <= #[trigger] dirs@[k].0 <= 1 && -1 <= dirs@[k].1 <= 1
                    && (dirs@[k].0 != 0 || dirs@[k].1 != 0),
                possible_moves@ == slide_moves(*chess_board, *self, offsets_of(dirs), i as int),
            decreases 4 - i,
        {
            self.push_ray(chess_board, dirs[i], &mut possible_moves);
            i = i + 1;
        }
        possible_moves
    }

    fn show_moves_bishop(&self, chess_board: &ChessBoard) -> (r: Vec<(usize, usize)>)
        requires
            on_board(self.pos),
        ensures
            r@ == slide_moves(*chess_board, *self, bishop_dirs(), 4),
    {
        let check_add_mult_vec: [(i8, i8); 4] = [(1, 1), (-1, -1), (1, -1), (-1, 1)];
        assert(offsets_of(check_add_mult_vec) =~= bishop_dirs());
        self.slide_targets(chess_board, check_add_mult_vec)
    }

    fn show_moves_rook(&self, chess_board: &ChessBoard) -> (r: Vec<(usize, usize)>)
        requires
            on_board(self.pos),
        ensures
            r@ == slide_moves(*chess_board, *self, rook_dirs(), 4),
    {
        let check_add_mult_vec: [(i8, i8); 4] = [(1, 0), (-1, 0), (0, 1), (0, -1)];
        assert(offsets_of(check_add_mult_vec) =~= rook_dirs());
        self.slide_targets(chess_board, check_add_mult_vec)
    }

    fn show_moves_queen(&self, chess_board: &ChessBoard) -> (r: Vec<(usize, usize)>)
        requires
            on_board(self.pos),
        ensures
            r@ == slide_moves(*chess_board, *self, rook_dirs(), 4) + slide_moves(*chess_board, *self, bishop_dirs(), 4),
    {
        let mut possible_moves = self.show_moves_rook(chess_board);
        let mut bishop_moves = self.show_moves_bishop(chess_board);
        possible_moves.append(&mut bishop_moves);
        possible_moves
    }

    fn get_pawn_vec(&self) -> (r: [(i8, i8); 5])
        ensures
            r@[0] == (0i8, pawn_step(self.color) as i8),
            r@[1] == (0i8, (2 * pawn_step(self.color)) as i8),
            r@[2] == (1i8, pawn_step(self.color) as i8),
            r@[3] == (-1i8, pawn_step(self.color) as i8),
            r@[4].0 == en_passant_row(self.color),
    {
        match self.color {
            Color::White => [(0, -1), (0, -2), (1, -1), (-1, -1), (3, 42)],
            Color::Black => [(0, 1), (0, 2), (1, 1), (-1, 1), (4, 42)],
        }
    }

    fn en_passant_to(&self, chess_board: &ChessBoard, last_move: &Move, dx: i8, forward: i8, row: i8) -> (r: Option<(usize, usize)>)
        requires
            on_board(self.pos),
            dx == -1 || dx == 1,
            forward == pawn_step(self.color),
            row == en_passant_row(self.color),
        ensures
            en_passant_ok(*chess_board, *self, *last_move, dx as int) ==> r == Some(shifted(self.pos, (dx as int, forward as int))),
            !en_passant_ok(*chess_board, *self, *last_move, dx as int) ==> r is None,
    {
        let check_pos = self.pos_add((dx, 0));
        if self.pos.1 == row as usize && self.pos_is_valid(check_pos) && self.pos_is_opposite_color(check_pos, chess_board) {
            if let Some(meep) = get_meeple_at(chess_board, check_pos) {
                if meep.typ == Type::Pawn && meep.move_counter == 1 && last_move.1.0 == check_pos.0
                    && last_move.1.1 == check_pos.1 {
                    return Some(self.pos_add((dx, forward)));
                }
            }
        }
        None
    }

    fn show_moves_pawn(&self, chess_board: &ChessBoard, last_move: &Move) -> (r: (Vec<(usize, usize)>, Option<(usize, usize)>))
        requires
            on_board(self.pos),
        ensures
            r.0@ == pawn_moves(*chess_board, *self, *last_move).0,
            r.1 == pawn_moves(*chess_board, *self, *last_move).1,
    {
        let b = *chess_board;
        let mut possible_moves: Vec<(usize, usize)> = Vec::new();
        let mut en_passant_pos: Option<(usize, usize)> = None;
        let pawn_move_add_vec = self.get_pawn_vec();
        let mut check_pos = self.pos_add(pawn_move_add_vec[0]);
        if self.pos_is_valid(check_pos) && self.pos_is_none(check_pos, chess_board) {
            possible_moves.push(check_pos);
            check_pos = self.pos_add(pawn_move_add_vec[1]);
            if self.move_counter == 0 && self.pos_is_valid(check_pos) && self.pos_is_none(check_pos, chess_board) {
                possible_moves.push(check_pos);
            }
        }
        let ghost ahead = possible_moves@;
        check_pos = self.pos_add(pawn_move_add_vec[2]);
        if self.pos_is_valid(check_pos) && self.pos_is_opposite_color(check_pos, chess_board) {
            possible_moves.push(check_pos);
        }
        check_pos = self.pos_add(pawn_move_add_vec[3]);
        if self.pos_is_valid(check_pos) && self.pos_is_opposite_color(check_pos, chess_board) {
            possible_moves.push(check_pos);
        }
        let forward = pawn_move_add_vec[0].1;
        let row = pawn_move_add_vec[4].0;
        if let Some(target) = self.en_passant_to(chess_board, last_move, -1, forward, row) {
            en_passant_pos = Some(target);
            possible_moves.push(target);
        }
        if let Some(target) = self.en_passant_to(chess_board, last_move, 1, forward, row) {
            en_passant_pos = Some(target);
            possible_moves.push(target);
        }
        proof {
            let f = pawn_step(self.color);
            let one = shifted(self.pos, (0, f));
            let two = shifted(self.pos, (0, 2 * f));
            let a = if on_board(one) && piece_at(b, one) is None {
                seq![one] + if self.move_counter == 0 && on_board(two) && piece_at(b, two) is None { seq![two] } else { Seq::empty() }
            } else {
                Seq::empty()
            };
            assert(ahead =~= a);
            assert(possible_moves@ =~= pawn_moves(b, *self, *last_move).0);
        }
        (possible_moves, en_passant_pos)
    }
}

/// All pieces in the list stand on the board.
pub open spec fn all_on_board(ms: Seq<Meeple>) -> bool {
    forall|i: int| 0 <= i < ms.len() ==> on_board(#[trigger] ms[i].pos)
}

pub proof fn lemma_attacked_grows(b: ChessBoard, opps: Seq<Meeple>, squares: Seq<(usize, usize)>, n: int, m: int)
    requires
        n <= m,
        attacked(b, opps, squares, n),
    ensures
        attacked(b, opps, squares, m),
    decreases m - n,
{
    if n < m {
        lemma_attacked_grows(b, opps, squares, n, m - 1);
    }
}

/// All squares in the list lie on the board.
pub open spec fn squares_on_board(s: Seq<(usize, usize)>) -> bool {
    forall|i: int| 0 <= i < s.len() ==> on_board(#[trigger] s[i])
}

proof fn lemma_jump_moves_on_board(b: ChessBoard, m: Meeple, offs: Seq<(int, int)>, n: int)
    ensures
        squares_on_board(jump_moves(b, m, offs, n)),
    decreases n,
{
    if n > 0 {
        lemma_jump_moves_on_board(b, m, offs, n - 1);
    }
}

proof fn lemma_ray_on_board(b: ChessBoard, m: Meeple, d: (int, int), k: int)
    ensures
        squares_on_board(ray(b, m, d, k)),
    decreases 9 - k,
{
    if 1 <= k <= 8 {
        lemma_ray_on_board(b, m, d, k + 1);
        let q = shifted(m.pos, (d.0 * k, d.1 * k));
        assert(squares_on_board(seq![q] + ray(b, m, d, k + 1)) || !on_board(q));
    }
}

proof fn lemma_slide_moves_on_board(b: ChessBoard, m: Meeple, dirs: Seq<(int, int)>, n: int)
    ensures
        squares_on_board(slide_moves(b, m, dirs, n)),
    decreases n,
{
    if n > 0 {
        lemma_slide_moves_on_board(b, m, dirs, n - 1);
        lemma_ray_on_board(b, m, dirs[n - 1], 1);
        let a = slide_moves(b, m, dirs, n - 1);
        let r = ray(b, m, dirs[n - 1], 1);
        assert forall|i: int| 0 <= i < (a + r).len() implies on_board(#[trigger] (a + r)[i]) by {
            if i >= a.len() {
                assert((a + r)[i] == r[i - a.len()]);
            }
        }
    }
}

/// Every square a piece on the board can move to lies on the board.
pub proof fn lemma_moves_on_board(m: Meeple, b: ChessBoard, last_move: Move, opps: Seq<Meeple>)
    requires
        on_board(m.pos),
    ensures
        squares_on_board(moves_of(m, b, last_move, opps)),
{
    match m.typ {
        Type::Pawn => {
            let f = pawn_step(m.color);
            let ms = pawn_moves(b, m, last_move).0;
            assert(en_passant_ok(b, m, last_move, -1) ==> on_board(shifted(m.pos, (-1, f))));
            assert(en_passant_ok(b, m, last_move, 1) ==> on_board(shifted(m.pos, (1, f))));
            assert(squares_on_board(ms));
        },
        Type::Knight => lemma_jump_moves_on_board(b, m, knight_offsets(), 8),
        Type::Bishop => lemma_slide_moves_on_board(b, m, bishop_dirs(), 4),
        Type::Rook => lemma_slide_moves_on_board(b, m, rook_dirs(), 4),
        Type::Queen => {
            lemma_slide_moves_on_board(b, m, rook_dirs(), 4);
            lemma_slide_moves_on_board(b, m, bishop_dirs(), 4);
            let a = slide_moves(b, m, rook_dirs(), 4);
            let r = slide_moves(b, m, bishop_dirs(), 4);
            assert forall|i: int| 0 <= i < (a + r).len() implies on_board(#[trigger] (a + r)[i]) by {
                if i >= a.len() {
                    assert((a + r)[i] == r[i - a.len()]);
                }
            }
        },
        Type::King => {
            lemma_jump_moves_on_board(b, m, king_offsets(), 8);
            let a = jump_moves(b, m, king_offsets(), 8);
            let c = if m.move_counter == 0 && last_move != no_move() { castling_moves(b, m, opps) } else { Seq::empty() };
            assert(squares_on_board(c));
            assert forall|i: int| 0 <= i < (a + c).len() implies on_board(#[trigger] (a + c)[i]) by {
                if i >= a.len() {
                    assert((a + c)[i] == c[i - a.len()]);
                }
            }
        },
    }
}

fn is_no_move(last_move: &Move) -> (r: bool)
    ensures
        r == (*last_move == no_move()),
{
    last_move.0.0 == 42 && last_move.0.1 == 42 && last_move.1.0 == 42 && last_move.1.1 == 42
}

impl Meeple {
    /// The squares this piece can move to (without regard to the safety of its own
    /// king). `opponent_meeples` matters only for castling.
    pub fn show_moves(&self, chess_board: &ChessBoard, last_move: &Move, opponent_meeples: &Vec<Meeple>) -> (r: Vec<(usize, usize)>)
        requires
            on_board(self.pos),
            all_on_board(opponent_meeples@),
        ensures
            r@ == moves_of(*self, *chess_board, *last_move, opponent_meeples@),
        decreases live(*last_move), 3int, 0int,
    {
        match self.typ {
            Type::Pawn => self.show_moves_pawn(chess_board, last_move).0,
            Type::Knight => self.show_moves_knight(chess_board),
            Type::Bishop => self.show_moves_bishop(chess_board),
            Type::Rook => self.show_moves_rook(chess_board),
            Type::Queen => self.show_moves_queen(chess_board),
            Type::King => self.show_moves_king(chess_board, last_move, opponent_meeples).0,
        }
    }

    fn show_moves_king(&self, chess_board: &ChessBoard, last_move: &Move, opponent_meeples: &Vec<Meeple>) -> (r: (Vec<(usize, usize)>, bool, bool))
        requires
            on_board(self.pos),
            all_on_board(opponent_meeples@),
        ensures
            r.0@ == king_moves(*chess_board, *self, *last_move, opponent_meeples@),
            !r.1,
            !r.2,
        decreases live(*last_move), 2int, 0int,
    {
        let check_add_vec: [(i8, i8); 8] = [(-1, -1), (0, -1), (1, -1), (-1, 0), (1, 0), (-1, 1), (0, 1), (1, 1)];
        assert(offsets_of(check_add_vec) =~= king_offsets());
        let mut possible_moves = self.jump_targets(chess_board, check_add_vec);
        if self.move_counter == 0 && !is_no_move(last_move) {
            let mut castling = self.check_casteling_king_and_queen(chess_board, opponent_meeples).0;
            possible_moves.append(&mut castling);
        } else {
            assert(possible_moves@ =~= possible_moves@ + Seq::<(usize, usize)>::empty());
        }
        (possible_moves, false, false)
    }

    fn check_casteling_king_and_queen(&self, chess_board: &ChessBoard, opponent_meeples: &Vec<Meeple>) -> (r: (Vec<(usize, usize)>, bool, bool))
        requires
            on_board(self.pos),
            all_on_board(opponent_meeples@),
        ensures
            r.0@ == castling_moves(*chess_board, *self, opponent_meeples@),
            !r.1,
            !r.2,
        decreases 1int, 1int, 0int,
    {
        let mut possible_moves: Vec<(usize, usize)> = Vec::new();
        let y = self.pos.1;
        let mut check_vec_right: Option<Vec<(usize, usize)>> = None;
        if self.pos_is_none((5, y), chess_board) && self.pos_is_none((6, y), chess_board) {
            if let Some(rook) = get_meeple_at(chess_board, (7, y)) {
                if rook.typ == Type::Rook && rook.color == self.color && rook.move_counter == 0 {
                    let mut squares: Vec<(usize, usize)> = Vec::new();
                    squares.push((4, y));
                    squares.push((5, y));
                    squares.push((6, y));
                    squares.push((7, y));
                    assert(squares@ =~= seq![(4usize, y), (5usize, y), (6usize, y), (7usize, y)]);
                    check_vec_right = Some(squares);
                }
            }
        }
        if let Some(right_meeples) = check_vec_right {
            if self.check_casteling_chess(right_meeples, chess_board, opponent_meeples) {
                possible_moves.push((6, y));
            }
        }
        let ghost right = possible_moves@;
        let mut check_vec_left: Option<Vec<(usize, usize)>> = None;
        if self.pos_is_none((3, y), chess_board) && self.pos_is_none((2, y), chess_board)
            && self.pos_is_none((1, y), chess_board) {
            if let Some(rook) = get_meeple_at(chess_board, (0, y)) {
                if rook.typ == Type::Rook && rook.color == self.color && rook.move_counter == 0 {
                    let mut squares: Vec<(usize, usize)> = Vec::new();
                    squares.push((4, y));
                    squares.push((3, y));
                    squares.push((2, y));
                    squares.push((1, y));
                    squares.push((0, y));
                    assert(squares@ =~= seq![(4usize, y), (3usize, y), (2usize, y), (1usize, y), (0usize, y)]);
                    check_vec_left = Some(squares);
                }
            }
        }
        if let Some(left_meeples) = check_vec_left {
            if self.check_casteling_chess(left_meeples, chess_board, opponent_meeples) {
                possible_moves.push((2, y));
            }
        }
        proof {
            let b = *chess_board;
            let m = *self;
            let opps = opponent_meeples@;
            let right_free = piece_at(b, (5, y)) is None && piece_at(b, (6, y)) is None && unmoved_rook(b, (7, y), m.color);
            let r = if right_free && !attacked(b, opps, seq![(4usize, y), (5usize, y), (6usize, y), (7usize, y)], opps.len() as int) {
                seq![(6usize, y)]
            } else {
                Seq::empty()
            };
            assert(right =~= r);
            assert(possible_moves@ =~= castling_moves(b, m, opps));
        }
        (possible_moves, false, false)
    }

    /// Whether none of the opponents reaches one of the squares.
    fn check_casteling_chess(&self, check_meeples: Vec<(usize, usize)>, chess_board: &ChessBoard, opponent_meeples: &Vec<Meeple>) -> (r: bool)
        requires
            all_on_board(opponent_meeples@),
        ensures
            r == !attacked(*chess_board, opponent_meeples@, check_meeples@, opponent_meeples@.len() as int),
        decreases 1int, 0int, 0int,
    {
        let mut i: usize = 0;
        let no_opponents: Vec<Meeple> = Vec::new();
        while i < opponent_meeples.len()
            invariant
                0 <= i <= opponent_meeples@.len(),
                all_on_board(opponent_meeples@),
                no_opponents@ == Seq::<Meeple>::empty(),
                !attacked(*chess_board, opponent_meeples@, check_meeples@, i as int),
            decreases opponent_meeples@.len() - i,
        {
            let opponent_meeple = opponent_meeples[i];
            let moves = opponent_meeple.show_moves(chess_board, &((42, 42), (42, 42)), &no_opponents);
            if hits_any(&moves, &check_meeples) {
                proof {
                    lemma_attacked_grows(*chess_board, opponent_meeples@, check_meeples@, i + 1, opponent_meeples@.len() as int);
                }
                return false;
            }
            i = i + 1;
        }
        true
    }
}

/// The position of the first piece in `list` that stands on `p`, or -1.
pub open spec fn first_index(list: Seq<Meeple>, p: (usize, usize)) -> int
    decreases list.len(),
{
    if list.len() == 0 {
        -1
    } else if list[0].pos == p {
        0
    } else {
        let r = first_index(list.drop_first(), p);
        if r < 0 { -1 } else { r + 1 }
    }
}

pub proof fn lemma_first_index(list: Seq<Meeple>, p: (usize, usize))
    ensures
        -1 <= first_index(list, p) < list.len(),
        first_index(list, p) >= 0 ==> list[first_index(list, p)].pos == p,
        first_index(list, p) >= 0 ==> forall|j: int| 0 <= j < first_index(list, p) ==> #[trigger] list[j].pos != p,
        first_index(list, p) < 0 ==> forall|j: int| 0 <= j < list.len() ==> #[trigger] list[j].pos != p,
    decreases list.len(),
{
    if list.len() > 0 {
        lemma_first_index(list.drop_first(), p);
        let r = first_index(list.drop_first(), p);
        assert forall|j: int| 0 < j < list.len() implies #[trigger] list[j] == list.drop_first()[j - 1] by {}
        if list[0].pos != p && r >= 0 {
            assert forall|j: int| 0 <= j < r + 1 implies #[trigger] list[j].pos != p by {
                if j > 0 {
                    assert(list[j] == list.drop_first()[j - 1]);
                }
            }
        }
        if list[0].pos != p && r < 0 {
            assert forall|j: int| 0 <= j < list.len() implies #[trigger] list[j].pos != p by {
                if j > 0 {
                    assert(list[j] == list.drop_first()[j - 1]);
                }
            }
        }
    }
}

fn find_piece(list: &Vec<Meeple>, p: (usize, usize)) -> (r: Option<usize>)
    ensures
        r matches Some(i) ==> i == first_index(list@, p) && i < list@.len() && list@[i as int].pos == p,
        r is None ==> first_index(list@, p) < 0,
{
    proof {
        lemma_first_index(list@, p);
    }
    let mut i: usize = 0;
    while i < list.len()
        invariant
            0 <= i <= list@.len(),
            forall|j: int| 0 <= j < i ==> #[trigger] list@[j].pos != p,
            -1 <= first_index(list@, p) < list@.len(),
            first_index(list@, p) >= 0 ==> list@[first_index(list@, p)].pos == p,
            first_index(list@, p) >= 0 ==> forall|j: int| 0 <= j < first_index(list@, p) ==> #[trigger] list@[j].pos != p,
            first_index(list@, p) < 0 ==> forall|j: int| 0 <= j < list@.len() ==> #[trigger] list@[j].pos != p,
        decreases list@.len() - i,
    {
        if list[i].pos.0 == p.0 && list[i].pos.1 == p.1 {
            return Some(i);
        }
        i = i + 1;
    }
    None
}

fn contains_square(moves: &Vec<(usize, usize)>, p: (usize, usize)) -> (r: bool)
    ensures
        r == moves@.contains(p),
{
    let mut i: usize = 0;
    while i < moves.len()
        invariant
            0 <= i <= moves@.len(),
            forall|j: int| 0 <= j < i ==> moves@[j] != p,
        decreases moves@.len() - i,
    {
        if moves[i].0 == p.0 && moves[i].1 == p.1 {
            assert(moves@[i as int] == p);
            return true;
        }
        i = i + 1;
    }
    false
}

/// The board after the piece on `from` moved to `to` (taking what stood there).
pub open spec fn board_after(b: ChessBoard, from: (usize, usize), to: (usize, usize)) -> ChessBoard {
    let moved = Meeple { pos: to, ..b[from.0 as int][from.1 as int]->0 };
    let b1 = vstd::array::spec_array_update(b, from.0 as int, vstd::array::spec_array_update(b[from.0 as int], from.1 as int, None));
    vstd::array::spec_array_update(b1, to.0 as int, vstd::array::spec_array_update(b1[to.0 as int], to.1 as int, Some(moved)))
}

/// The list with the first piece on `from` moved to `to`.
pub open spec fn list_moved(list: Seq<Meeple>, from: (usize, usize), to: (usize, usize)) -> Seq<Meeple> {
    let i = first_index(list, from);
    if i >= 0 { list.update(i, Meeple { pos: to, ..list[i] }) } else { list }
}

/// The list without the first piece on `to`.
pub open spec fn list_taken(list: Seq<Meeple>, to: (usize, usize)) -> Seq<Meeple> {
    let i = first_index(list, to);
    if i >= 0 { list.remove(i) } else { list }
}

/// After `m` moves to `to`, no remaining opponent reaches the square of the last piece
/// of `own` (the king, which the piece lists keep last).
pub open spec fn leaves_king_safe(b: ChessBoard, m: Meeple, own: Seq<Meeple>, opps: Seq<Meeple>, to: (usize, usize)) -> bool {
    let after = board_after(b, m.pos, to);
    let own2 = list_moved(own, m.pos, to);
    let opps2 = list_taken(opps, to);
    forall|i: int| 0 <= i < opps2.len() ==> !moves_of(#[trigger] opps2[i], after, (m.pos, to), own2).contains(own2.last().pos)
}

/// The squares among `moves[0..n]` that leave the own king safe, in order.
pub open spec fn safe_moves(b: ChessBoard, m: Meeple, own: Seq<Meeple>, opps: Seq<Meeple>, moves: Seq<(usize, usize)>, n: int) -> Seq<(usize, usize)>
    decreases n,
{
    if n <= 0 {
        Seq::empty()
    } else if leaves_king_safe(b, m, own, opps, moves[n - 1]) {
        safe_moves(b, m, own, opps, moves, n - 1).push(moves[n - 1])
    } else {
        safe_moves(b, m, own, opps, moves, n - 1)
    }
}

/// The side lists of the piece's colour: (own pieces, opponent's pieces).
pub open spec fn sides(m: Meeple, white: Seq<Meeple>, black: Seq<Meeple>) -> (Seq<Meeple>, Seq<Meeple>) {
    if m.color == Color::White { (white, black) } else { (black, white) }
}

/// The moves of `m` (as `show_moves` finds them, the king's with the opponents' pieces for
/// castling) that leave its own king safe; with the pawn's en passant target.
#[verifier::opaque]
pub open spec fn legal_moves(b: ChessBoard, m: Meeple, last_move: Move, white: Seq<Meeple>, black: Seq<Meeple>) -> Seq<(usize, usize)> {
    let (own, opps) = sides(m, white, black);
    let all = moves_of(m, b, last_move, opps);
    safe_moves(b, m, own, opps, all, all.len() as int)
}

impl Meeple {
    fn leaves_king_safe_exec(&self, chess_board: &ChessBoard, turn_meeples: &Vec<Meeple>, opposite_turn_meeples: &Vec<Meeple>, to_pos: (usize, usize)) -> (r: bool)
        requires
            on_board(self.pos),
            on_board(to_pos),
            piece_at(*chess_board, self.pos) is Some,
            turn_meeples@.len() > 0,
            all_on_board(turn_meeples@),
            all_on_board(opposite_turn_meeples@),
        ensures
            r == leaves_king_safe(*chess_board, *self, turn_meeples@, opposite_turn_meeples@, to_pos),
    {
        let mut chess_board_clone = *chess_board;
        let from_pos = self.pos;
        let mut from = chess_board_clone[from_pos.0][from_pos.1].take().unwrap();
        from.pos = to_pos;
        chess_board_clone[to_pos.0][to_pos.1] = Some(from);
        assert(chess_board_clone =~= board_after(*chess_board, self.pos, to_pos));
        let mut turn_meeples_clone = turn_meeples.clone();
        assert(turn_meeples_clone@ =~= turn_meeples@);
        if let Some(index) = find_piece(&turn_meeples_clone, from_pos) {
            turn_meeples_clone[index].pos = to_pos;
        }
        let ghost own2 = turn_meeples_clone@;
        assert(own2 =~= list_moved(turn_meeples@, self.pos, to_pos));
        let mut opposite_turn_meeples_clone = opposite_turn_meeples.clone();
        assert(opposite_turn_meeples_clone@ =~= opposite_turn_meeples@);
        if let Some(index) = find_piece(&opposite_turn_meeples_clone, to_pos) {
            opposite_turn_meeples_clone.remove(index);
        }
        let ghost opps2 = opposite_turn_meeples_clone@;
        assert(opps2 =~= list_taken(opposite_turn_meeples@, to_pos));
        proof {
            assert forall|i: int| 0 <= i < own2.len() implies on_board(#[trigger] own2[i].pos) by {}
            assert forall|i: int| 0 <= i < opps2.len() implies on_board(#[trigger] opps2[i].pos) by {
                let k = first_index(opposite_turn_meeples@, to_pos);
                if k >= 0 && i >= k {
                    assert(opps2[i] == opposite_turn_meeples@[i + 1]);
                }
            }
        }
        let king_pos = turn_meeples_clone[turn_meeples_clone.len() - 1].pos;
        let mut legal_move = true;
        let mut i: usize = 0;
        while i < opposite_turn_meeples_clone.len()
            invariant_except_break
                legal_move,
            invariant
                0 <= i <= opps2.len(),
                opposite_turn_meeples_clone@ == opps2,
                turn_meeples_clone@ == own2,
                all_on_board(opps2),
                all_on_board(own2),
                own2.len() > 0,
                king_pos == own2.last().pos,
                chess_board_clone == board_after(*chess_board, self.pos, to_pos),
                from_pos == self.pos,
                forall|j: int| 0 <= j < i ==> !moves_of(#[trigger] opps2[j], chess_board_clone, (from_pos, to_pos), own2).contains(king_pos),
            ensures
                legal_move == forall|j: int| 0 <= j < opps2.len() ==> !moves_of(#[trigger] opps2[j], chess_board_clone, (from_pos, to_pos), own2).contains(king_pos),
            decreases opps2.len() - i,
        {
            let check_meeple = opposite_turn_meeples_clone[i];
            let moves = check_meeple.show_moves(&chess_board_clone, &(from_pos, to_pos), &turn_meeples_clone);
            if contains_square(&moves, king_pos) {
                assert(moves_of(opps2[i as int], chess_board_clone, (from_pos, to_pos), own2).contains(king_pos));
                legal_move = false;
                break;
            }
            i = i + 1;
        }
        legal_move
    }

    /// The legal moves of this piece: its moves after which no opponent reaches its
    /// own king; the en passant target of a pawn; castling rights (always reported as
    /// not available).
    pub fn show_legal_moves(&self, chess_board: &ChessBoard, last_move: &Move, white_meeples: &Vec<Meeple>, black_meeples: &Vec<Meeple>)
        -> (r: (Vec<(usize, usize)>, Option<(usize, usize)>, ((bool, bool), (bool, bool))))
        requires
            on_board(self.pos),
            piece_at(*chess_board, self.pos) is Some,
            all_on_board(white_meeples@),
            all_on_board(black_meeples@),
            sides(*self, white_meeples@, black_meeples@).0.len() > 0,
        ensures
            r.0@ == legal_moves(*chess_board, *self, *last_move, white_meeples@, black_meeples@),
            r.1 == (if self.typ == Type::Pawn { pawn_moves(*chess_board, *self, *last_move).1 } else { None }),
            r.2 == ((false, false), (false, false)),
    {
        let mut legal_moves: Vec<(usize, usize)> = Vec::new();
        let (turn_meeples, opposite_turn_meeples) = match self.color {
            Color::White => (white_meeples, black_meeples),
            Color::Black => (black_meeples, white_meeples),
        };
        let mut casteling_rights = ((false, false), (false, false));
        let mut en_passant_pos: Option<(usize, usize)> = None;
        let all_moves = match self.typ {
            Type::King => {
                let things = self.show_moves_king(chess_board, last_move, opposite_turn_meeples);
                if self.color == Color::White {
                    casteling_rights.0 = (things.1, things.2);
                } else {
                    casteling_rights.1 = (things.1, things.2);
                }
                things.0
            },
            Type::Pawn => {
                let things = self.show_moves_pawn(chess_board, last_move);
                en_passant_pos = things.1;
                things.0
            },
            _ => self.show_moves(chess_board, last_move, opposite_turn_meeples),
        };
        self.show_moves(chess_board, last_move, opposite_turn_meeples);
        let ghost all = all_moves@;
        assert(all == moves_of(*self, *chess_board, *last_move, opposite_turn_meeples@));
        proof {
            reveal(crate::chess::legal_moves);
        }
        proof {
            lemma_moves_on_board(*self, *chess_board, *last_move, opposite_turn_meeples@);
        }
        let mut k: usize = 0;
        while k < all_moves.len()
            invariant
                0 <= k <= all.len(),
                all_moves@ == all,
                on_board(self.pos),
                piece_at(*chess_board, self.pos) is Some,
                turn_meeples@.len() > 0,
                all_on_board(turn_meeples@),
                all_on_board(opposite_turn_meeples@),
                forall|j: int| 0 <= j < all.len() ==> on_board(#[trigger] all[j]),
                legal_moves@ == safe_moves(*chess_board, *self, turn_meeples@, opposite_turn_meeples@, all, k as int),
            decreases all.len() - k,
        {
            let to_pos = all_moves[k];
            if self.leaves_king_safe_exec(chess_board, turn_meeples, opposite_turn_meeples, to_pos) {
                legal_moves.push(to_pos);
            }
            k = k + 1;
        }
        (legal_moves, en_passant_pos, casteling_rights)
    }
}

proof fn lemma_safe_moves_sound(b: ChessBoard, m: Meeple, own: Seq<Meeple>, opps: Seq<Meeple>, moves: Seq<(usize, usize)>, n: int)
    requires
        n <= moves.len(),
    ensures
        forall|i: int| 0 <= i < safe_moves(b, m, own, opps, moves, n).len() ==> {
            let q = #[trigger] safe_moves(b, m, own, opps, moves, n)[i];
            &&& moves.take(n).contains(q)
            &&& leaves_king_safe(b, m, own, opps, q)
        },
    decreases n,
{
    if n > 0 {
        lemma_safe_moves_sound(b, m, own, opps, moves, n - 1);
        let prev = safe_moves(b, m, own, opps, moves, n - 1);
        let cur = safe_moves(b, m, own, opps, moves, n);
        assert forall|i: int| 0 <= i < cur.len() implies {
            let q = #[trigger] cur[i];
            &&& moves.take(n).contains(q)
            &&& leaves_king_safe(b, m, own, opps, q)
        } by {
            if i < prev.len() {
                assert(cur[i] == prev[i]);
                let q = prev[i];
                let t = moves.take(n - 1);
                let j = choose|j: int| 0 <= j < t.len() && #[trigger] t[j] == q;
                assert(moves.take(n)[j] == q);
            } else {
                assert(cur[i] == moves[n - 1]);
                assert(moves.take(n)[n - 1] == moves[n - 1]);
            }
        }
    }
}

/// A legal move is one of the piece's moves, and after it no opponent reaches the own
/// king: a pinned piece cannot leave its line.
pub proof fn lemma_legal_moves_safe(b: ChessBoard, m: Meeple, last_move: Move, white: Seq<Meeple>, black: Seq<Meeple>)
    ensures
        forall|i: int| 0 <= i < legal_moves(b, m, last_move, white, black).len() ==> {
            let q = #[trigger] legal_moves(b, m, last_move, white, black)[i];
            let (own, opps) = sides(m, white, black);
            &&& moves_of(m, b, last_move, opps).contains(q)
            &&& leaves_king_safe(b, m, own, opps, q)
        },
{
    reveal(legal_moves);
    let (own, opps) = sides(m, white, black);
    let all = moves_of(m, b, last_move, opps);
    lemma_safe_moves_sound(b, m, own, opps, all, all.len() as int);
    assert(all.take(all.len() as int) =~= all);
}


// ---------------------------------------------------------------------------
// Castling and en passant
// ---------------------------------------------------------------------------

proof fn lemma_king_steps_near(b: ChessBoard, m: Meeple, n: int, q: (usize, usize))
    requires
        0 <= n <= 8,
        jump_moves(b, m, king_offsets(), n).contains(q),
    ensures
        q.0 + 1 >= m.pos.0 && q.0 <= m.pos.0 + 1,
    decreases n,
{
    if n > 0 {
        let prev = jump_moves(b, m, king_offsets(), n - 1);
        let r = shifted(m.pos, king_offsets()[n - 1]);
        if prev.contains(q) {
            lemma_king_steps_near(b, m, n - 1, q);
        } else {
            assert(on_board(r) && free_or_enemy(b, r, m.color));
            assert(jump_moves(b, m, king_offsets(), n) == prev.push(r));
            let j = choose|j: int| 0 <= j < prev.push(r).len() && prev.push(r)[j] == q;
            if j < prev.len() {
                assert(prev[j] == q);
            }
        }
    }
}

proof fn lemma_unattacked(b: ChessBoard, opps: Seq<Meeple>, squares: Seq<(usize, usize)>, n: int, i: int, q: (usize, usize))
    requires
        !attacked(b, opps, squares, n),
        0 <= i < n,
        squares.contains(q),
    ensures
        !moves_of(opps[i], b, no_move(), Seq::empty()).contains(q),
    decreases n,
{
    if i < n - 1 {
        lemma_unattacked(b, opps, squares, n - 1, i, q);
    } else {
        let mv = moves_of(opps[i], b, no_move(), Seq::empty());
        if mv.contains(q) {
            let j = choose|j: int| 0 <= j < mv.len() && mv[j] == q;
            assert(hits(mv, squares));
        }
    }
}

proof fn lemma_legal_in_moves(b: ChessBoard, m: Meeple, last_move: Move, white: Seq<Meeple>, black: Seq<Meeple>, q: (usize, usize))
    requires
        legal_moves(b, m, last_move, white, black).contains(q),
    ensures
        moves_of(m, b, last_move, sides(m, white, black).1).contains(q),
{
    lemma_legal_moves_safe(b, m, last_move, white, black);
    let l = legal_moves(b, m, last_move, white, black);
    let i = choose|i: int| 0 <= i < l.len() && l[i] == q;
    assert(l[i] == q);
}

/// A king castles only when neither it nor the rook has moved, a move has been made, the
/// squares between them are free, and no opponent piece reaches any square from the
/// king's own square to the rook's corner: not out of check, not through or onto an
/// attacked square. The squares are e..h for the king's side (target on the g-file) and
/// a..e for the queen's side (target on the c-file).
pub proof fn lemma_castling_squares_safe(b: ChessBoard, m: Meeple, last_move: Move, white: Seq<Meeple>, black: Seq<Meeple>)
    requires
        m.typ == Type::King,
        m.pos.0 == 4,
        m.pos.1 < 8,
    ensures
        legal_moves(b, m, last_move, white, black).contains((6usize, m.pos.1)) ==> {
            &&& m.move_counter == 0
            &&& last_move != no_move()
            &&& piece_at(b, (5usize, m.pos.1)) is None
            &&& piece_at(b, (6usize, m.pos.1)) is None
            &&& piece_at(b, (7usize, m.pos.1)) matches Some(r) && r.typ == Type::Rook && r.color == m.color
                && r.move_counter == 0
        },
        legal_moves(b, m, last_move, white, black).contains((2usize, m.pos.1)) ==> {
            &&& m.move_counter == 0
            &&& last_move != no_move()
            &&& piece_at(b, (1usize, m.pos.1)) is None
            &&& piece_at(b, (2usize, m.pos.1)) is None
            &&& piece_at(b, (3usize, m.pos.1)) is None
            &&& piece_at(b, (0usize, m.pos.1)) matches Some(r) && r.typ == Type::Rook && r.color == m.color
                && r.move_counter == 0
        },
        legal_moves(b, m, last_move, white, black).contains((6usize, m.pos.1)) ==> forall|i: int, x: usize|
            0 <= i < sides(m, white, black).1.len() && 4 <= x <= 7 ==> !(#[trigger] moves_of(
                sides(m, white, black).1[i], b, no_move(), Seq::empty()).contains((x, m.pos.1))),
        legal_moves(b, m, last_move, white, black).contains((2usize, m.pos.1)) ==> forall|i: int, x: usize|
            0 <= i < sides(m, white, black).1.len() && x <= 4 ==> !(#[trigger] moves_of(
                sides(m, white, black).1[i], b, no_move(), Seq::empty()).contains((x, m.pos.1))),
{
    broadcast use vstd::seq_lib::lemma_seq_concat_contains_all_elements;
    let y = m.pos.1;
    let opps = sides(m, white, black).1;
    let steps = jump_moves(b, m, king_offsets(), 8);
    let right_sq = seq![(4usize, y), (5usize, y), (6usize, y), (7usize, y)];
    let left_sq = seq![(4usize, y), (3usize, y), (2usize, y), (1usize, y), (0usize, y)];
    if legal_moves(b, m, last_move, white, black).contains((6usize, y)) {
        lemma_legal_in_moves(b, m, last_move, white, black, (6usize, y));
        if steps.contains((6usize, y)) {
            lemma_king_steps_near(b, m, 8, (6usize, y));
        }
        let cm = castling_moves(b, m, opps);
        assert(cm.contains((6usize, y)));
        let right_free = piece_at(b, (5, y)) is None && piece_at(b, (6, y)) is None && unmoved_rook(b, (7, y), m.color);
        assert(right_free && !attacked(b, opps, right_sq, opps.len() as int));
        assert forall|i: int, x: usize| 0 <= i < opps.len() && 4 <= x <= 7 implies !(#[trigger] moves_of(
            opps[i], b, no_move(), Seq::empty()).contains((x, y))) by {
            assert(right_sq[x - 4] == (x, y));
            lemma_unattacked(b, opps, right_sq, opps.len() as int, i, (x, y));
        }
    }
    if legal_moves(b, m, last_move, white, black).contains((2usize, y)) {
        lemma_legal_in_moves(b, m, last_move, white, black, (2usize, y));
        if steps.contains((2usize, y)) {
            lemma_king_steps_near(b, m, 8, (2usize, y));
        }
        let cm = castling_moves(b, m, opps);
        assert(cm.contains((2usize, y)));
        let left_free = piece_at(b, (3, y)) is None && piece_at(b, (2, y)) is None && piece_at(b, (1, y)) is None
            && unmoved_rook(b, (0, y), m.color);
        assert(left_free && !attacked(b, opps, left_sq, opps.len() as int));
        assert forall|i: int, x: usize| 0 <= i < opps.len() && x <= 4 implies !(#[trigger] moves_of(
            opps[i], b, no_move(), Seq::empty()).contains((x, y))) by {
            assert(left_sq[4 - x] == (x, y));
            lemma_unattacked(b, opps, left_sq, opps.len() as int, i, (x, y));
        }
    }
}

/// En passant only right after the enemy pawn's double step: a pawn moves diagonally onto
/// an empty square only from its fifth row (row 3 for White, row 4 for Black), one row
/// ahead, when the last move ended on the square beside it in the column it moves to,
/// where an enemy pawn stands that has moved once; and the en passant square is set
/// only then.
pub proof fn lemma_en_passant_after_last_move(b: ChessBoard, m: Meeple, last_move: Move, white: Seq<Meeple>, black: Seq<Meeple>)
    requires
        m.typ == Type::Pawn,
        on_board(m.pos),
    ensures
        forall|q: (usize, usize)| #[trigger] legal_moves(b, m, last_move, white, black).contains(q) && q.0 != m.pos.0
            && piece_at(b, q) is None ==> {
            &&& last_move.1 == (q.0, m.pos.1)
            &&& piece_at(b, (q.0, m.pos.1)) matches Some(o) && o.typ == Type::Pawn && o.color != m.color
                && o.move_counter == 1
            &&& m.color == Color::White ==> m.pos.1 == 3 && q.1 == 2
            &&& m.color == Color::Black ==> m.pos.1 == 4 && q.1 == 5
        },
        pawn_moves(b, m, last_move).1 matches Some(t) ==> {
            &&& last_move.1 == (t.0, m.pos.1)
            &&& piece_at(b, (t.0, m.pos.1)) matches Some(o) && o.typ == Type::Pawn && o.color != m.color
                && o.move_counter == 1
            &&& m.color == Color::White ==> m.pos.1 == 3 && t.1 == 2
            &&& m.color == Color::Black ==> m.pos.1 == 4 && t.1 == 5
        },
{
    broadcast use vstd::seq_lib::lemma_seq_concat_contains_all_elements;
    assert forall|q: (usize, usize)| #[trigger] legal_moves(b, m, last_move, white, black).contains(q) && q.0 != m.pos.0
        && piece_at(b, q) is None implies {
        &&& last_move.1 == (q.0, m.pos.1)
        &&& piece_at(b, (q.0, m.pos.1)) matches Some(o) && o.typ == Type::Pawn && o.color != m.color
            && o.move_counter == 1
        &&& m.color == Color::White ==> m.pos.1 == 3 && q.1 == 2
        &&& m.color == Color::Black ==> m.pos.1 == 4 && q.1 == 5
    } by {
        lemma_legal_in_moves(b, m, last_move, white, black, q);
        let f = pawn_step(m.color);
        let one = shifted(m.pos, (0, f));
        let two = shifted(m.pos, (0, 2 * f));
        let right = shifted(m.pos, (1, f));
        let left = shifted(m.pos, (-1, f));
        let pm = pawn_moves(b, m, last_move).0;
        assert(pm.contains(q));
        if en_passant_ok(b, m, last_move, -1) && q == shifted(m.pos, (-1, f)) {
        } else if en_passant_ok(b, m, last_move, 1) && q == shifted(m.pos, (1, f)) {
        } else {
            assert(false);
        }
    }
}

} // verus!
