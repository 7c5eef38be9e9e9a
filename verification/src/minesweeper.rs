use vstd::prelude::*;
use crate::rng::random_below;

verus! {

/// Whether a cell is still closed, open, or marked with a flag.
#[derive(Clone, Copy, PartialEq, Eq, Debug, Structural)]
pub enum CellState {
    Unopened,
    Opened,
    Flagged,
}

/// What a cell holds: a mine, nothing, or the number of mines around it (1 to 8).
#[derive(Clone, Copy, PartialEq, Eq, Debug, Structural)]
pub enum CellContent {
    Mine,
    Blank,
    Number(u8),
}

/// A player's action on the cell in column `x`, row `y`. `Flag` sets and removes a flag.
#[derive(Clone, Copy, PartialEq, Eq, Debug, Structural)]
pub enum ActionKind {
    Flag(usize, usize),
    Open(usize, usize),
}

#[derive(Clone, Copy, PartialEq, Eq, Debug, Structural)]
pub enum Difficulty {
    Easy,
    Medium,
    Hard,
    Expert,
}

#[derive(Clone, Copy, PartialEq, Eq, Debug, Structural)]
pub struct Cell {
    pub cell_state: CellState,
    pub cell_content: CellContent,
}

/// A game of Minesweeper: the board row by row (`board[y][x]`), the number of cells
/// opened by the player, the number of mines, the flags left, and whether the game is
/// lost or won.
#[derive(Clone, Debug, PartialEq, Eq)]
pub struct Game {
    pub board: Vec<Vec<Cell>>,
    pub opened_count: usize,
    pub mine_count: usize,
    pub flag_count: usize,
    pub game_over: bool,
    pub game_won: bool,
}

// ---------------------------------------------------------------------------
// The board as a mathematical value
// ---------------------------------------------------------------------------

/// The cells, row by row.
pub open spec fn grid(g: Game) -> Seq<Seq<Cell>> {
    g.board@.map_values(|r: Vec<Cell>| r@)
}

pub open spec fn board_height(g: Game) -> int {
    g.board@.len() as int
}

pub open spec fn board_width(g: Game) -> int {
    g.board@[0]@.len() as int
}

pub open spec fn in_bounds(g: Game, x: int, y: int) -> bool {
    0 <= x < board_width(g) && 0 <= y < board_height(g)
}

/// The cell in column `x`, row `y`.
pub open spec fn cell(g: Game, x: int, y: int) -> Cell {
    g.board@[y]@[x]
}

/// The board is a non-empty rectangle whose number of cells fits in an `isize`.
pub open spec fn rectangular(g: Game) -> bool {
    &&& board_height(g) > 0
    &&& board_width(g) > 0
    &&& forall|y: int| 0 <= y < board_height(g) ==> (#[trigger] g.board@[y])@.len() == board_width(g)
    &&& board_height(g) * board_width(g) <= isize::MAX
}

pub open spec fn is_mine(c: Cell) -> bool {
    c.cell_content == CellContent::Mine
}

pub open spec fn is_opened(c: Cell) -> bool {
    c.cell_state == CellState::Opened
}

pub open spec fn mine_at(g: Game, x: int, y: int) -> bool {
    in_bounds(g, x, y) && is_mine(cell(g, x, y))
}

/// The offset of the `k`-th of the nine cells of the 3x3 block around a cell, read row
/// by row; the fifth (`k == 4`) is the cell itself.
pub open spec fn offset(k: int) -> (int, int) {
    (k % 3 - 1, k / 3 - 1)
}

/// The number of mines among the first `k` cells of the block around `(x, y)`, the cell
/// itself left out.
pub open spec fn mines_around_upto(g: Game, x: int, y: int, k: int) -> int
    decreases k,
{
    if k <= 0 {
        0
    } else {
        let d = offset(k - 1);
        mines_around_upto(g, x, y, k - 1) + if k - 1 != 4 && mine_at(g, x + d.0, y + d.1) { 1int } else { 0 }
    }
}

/// The number of mines on the (up to eight) cells around `(x, y)`.
pub open spec fn mines_around(g: Game, x: int, y: int) -> int {
    mines_around_upto(g, x, y, 9)
}

/// What a cell without a mine must show: `Blank` with no mine around it, else the
/// number of mines around it.
pub open spec fn shown_content(n: int) -> CellContent {
    if n == 0 { CellContent::Blank } else { CellContent::Number(n as u8) }
}

/// Every cell without a mine shows the number of mines around it.
pub open spec fn numbers_consistent(g: Game) -> bool {
    forall|x: int, y: int| in_bounds(g, x, y) && !is_mine(#[trigger] cell(g, x, y)) ==>
        cell(g, x, y).cell_content == shown_content(mines_around(g, x, y))
}

/// Two games have boards of the same shape with the same content on each cell.
pub open spec fn same_layout(g1: Game, g2: Game) -> bool {
    &&& board_height(g1) == board_height(g2)
    &&& board_width(g1) == board_width(g2)
    &&& forall|x: int, y: int| in_bounds(g1, x, y) ==> (#[trigger] cell(g1, x, y)).cell_content == cell(g2, x, y).cell_content
}

// ---------------------------------------------------------------------------
// Counting cells
// ---------------------------------------------------------------------------

pub open spec fn row_count(row: Seq<Cell>, p: spec_fn(Cell) -> bool) -> int
    decreases row.len(),
{
    if row.len() == 0 {
        0
    } else {
        row_count(row.drop_last(), p) + if p(row.last()) { 1int } else { 0 }
    }
}

pub open spec fn grid_count(rows: Seq<Seq<Cell>>, p: spec_fn(Cell) -> bool) -> int
    decreases rows.len(),
{
    if rows.len() == 0 {
        0
    } else {
        grid_count(rows.drop_last(), p) + row_count(rows.last(), p)
    }
}

pub open spec fn opened_p() -> spec_fn(Cell) -> bool {
    |c: Cell| c.cell_state == CellState::Opened
}

pub open spec fn unopened_p() -> spec_fn(Cell) -> bool {
    |c: Cell| c.cell_state != CellState::Opened
}

pub open spec fn flagged_p() -> spec_fn(Cell) -> bool {
    |c: Cell| c.cell_state == CellState::Flagged
}

pub open spec fn mine_p() -> spec_fn(Cell) -> bool {
    |c: Cell| c.cell_content == CellContent::Mine
}

/// The number of cells of the board with property `p`.
pub open spec fn count(g: Game, p: spec_fn(Cell) -> bool) -> int {
    grid_count(grid(g), p)
}

pub open spec fn ind(b: bool) -> int {
    if b { 1 } else { 0 }
}

proof fn lemma_row_count_update(row: Seq<Cell>, x: int, c: Cell, p: spec_fn(Cell) -> bool)
    requires
        0 <= x < row.len(),
    ensures
        row_count(row.update(x, c), p) == row_count(row, p) - ind(p(row[x])) + ind(p(c)),
    decreases row.len(),
{
    let r2 = row.update(x, c);
    if x == row.len() - 1 {
        assert(r2.drop_last() =~= row.drop_last());
    } else {
        lemma_row_count_update(row.drop_last(), x, c, p);
        assert(r2.drop_last() =~= row.drop_last().update(x, c));
    }
}

proof fn lemma_row_count_bounds(row: Seq<Cell>, p: spec_fn(Cell) -> bool)
    ensures
        0 <= row_count(row, p) <= row.len(),
    decreases row.len(),
{
    if row.len() > 0 {
        lemma_row_count_bounds(row.drop_last(), p);
    }
}

proof fn lemma_grid_count_update(rows: Seq<Seq<Cell>>, x: int, y: int, c: Cell, p: spec_fn(Cell) -> bool)
    requires
        0 <= y < rows.len(),
        0 <= x < rows[y].len(),
    ensures
        grid_count(rows.update(y, rows[y].update(x, c)), p) == grid_count(rows, p) - ind(p(rows[y][x])) + ind(p(c)),
    decreases rows.len(),
{
    let r2 = rows.update(y, rows[y].update(x, c));
    lemma_row_count_update(rows[y], x, c, p);
    if y == rows.len() - 1 {
        assert(r2.drop_last() =~= rows.drop_last());
    } else {
        lemma_grid_count_update(rows.drop_last(), x, y, c, p);
        assert(r2.drop_last() =~= rows.drop_last().update(y, rows[y].update(x, c)));
    }
}

proof fn lemma_grid_count_bounds(rows: Seq<Seq<Cell>>, w: int, p: spec_fn(Cell) -> bool)
    requires
        forall|y: int| 0 <= y < rows.len() ==> (#[trigger] rows[y]).len() == w,
    ensures
        0 <= grid_count(rows, p) <= rows.len() * w,
    decreases rows.len(),
{
    if rows.len() > 0 {
        lemma_grid_count_bounds(rows.drop_last(), w, p);
        lemma_row_count_bounds(rows.last(), p);
        assert((rows.len() - 1) * w + w == rows.len() * w) by (nonlinear_arith);
    }
}

/// Counts of a property that is the complement of another add up to the cell count.
proof fn lemma_count_complement(rows: Seq<Seq<Cell>>, w: int)
    requires
        forall|y: int| 0 <= y < rows.len() ==> (#[trigger] rows[y]).len() == w,
    ensures
        grid_count(rows, opened_p()) + grid_count(rows, unopened_p()) == rows.len() * w,
    decreases rows.len(),
{
    if rows.len() > 0 {
        lemma_count_complement(rows.drop_last(), w);
        lemma_row_complement(rows.last());
        assert((rows.len() - 1) * w + w == rows.len() * w) by (nonlinear_arith);
    }
}

proof fn lemma_row_complement(row: Seq<Cell>)
    ensures
        row_count(row, opened_p()) + row_count(row, unopened_p()) == row.len(),
    decreases row.len(),
{
    if row.len() > 0 {
        lemma_row_complement(row.drop_last());
    }
}

pub open spec fn cells_total(g: Game) -> int {
    board_height(g) * board_width(g)
}

/// The bookkeeping that every game keeps: the board is a rectangle, every cell without
/// a mine shows its number, `mine_count` is the number of mines and less than the number
/// of cells, the player has not opened more cells than are open, flags left and flags
/// set add up to at most the number of mines; and while the game runs, no mine is open
/// and `opened_count` is the number of open cells.
pub open spec fn valid(g: Game) -> bool {
    &&& consistent(g)
    &&& playing(g) ==> g.opened_count == count(g, opened_p())
    &&& playing(g) ==> forall|x: int, y: int| in_bounds(g, x, y) && is_opened(#[trigger] cell(g, x, y)) ==> !is_mine(cell(g, x, y))
}

/// The part of `valid` that holds after the game ended too.
pub open spec fn consistent(g: Game) -> bool {
    &&& rectangular(g)
    &&& numbers_consistent(g)
    &&& g.mine_count == count(g, mine_p())
    &&& g.mine_count < cells_total(g)
    &&& g.opened_count <= count(g, opened_p())
    &&& g.flag_count + count(g, flagged_p()) <= g.mine_count
}

pub open spec fn playing(g: Game) -> bool {
    !g.game_over && !g.game_won
}

/// The game after cell `(x, y)` was replaced by `c`.
pub open spec fn with_cell(g: Game, x: int, y: int, c: Cell) -> Seq<Seq<Cell>> {
    grid(g).update(y, grid(g)[y].update(x, c))
}

/// No cell is opened and the contents stay: a game that had no open mine still has none.
proof fn lemma_opened_cells_kept(g1: Game, g2: Game)
    requires
        same_layout(g1, g2),
        forall|i: int, j: int| in_bounds(g1, i, j) ==> (is_opened(#[trigger] cell(g2, i, j)) ==> is_opened(cell(g1, i, j))),
        forall|x: int, y: int| in_bounds(g1, x, y) && is_opened(#[trigger] cell(g1, x, y)) ==> !is_mine(cell(g1, x, y)),
    ensures
        forall|x: int, y: int| in_bounds(g2, x, y) && is_opened(#[trigger] cell(g2, x, y)) ==> !is_mine(cell(g2, x, y)),
{
    assert forall|x: int, y: int| in_bounds(g2, x, y) && is_opened(#[trigger] cell(g2, x, y)) implies !is_mine(cell(g2, x, y)) by {
        assert(is_opened(cell(g1, x, y)));
        assert(cell(g1, x, y).cell_content == cell(g2, x, y).cell_content);
    }
}

proof fn lemma_with_same_cell(g: Game, x: int, y: int)
    requires
        in_bounds(g, x, y),
        rectangular(g),
    ensures
        with_cell(g, x, y, cell(g, x, y)) == grid(g),
{
    assert(grid(g)[y][x] == cell(g, x, y));
    assert(grid(g)[y].update(x, cell(g, x, y)) =~= grid(g)[y]);
    assert(with_cell(g, x, y, cell(g, x, y)) =~= grid(g));
}

proof fn lemma_counts_after_update(g: Game, g2: Game, x: int, y: int, c: Cell)
    requires
        rectangular(g),
        in_bounds(g, x, y),
        grid(g2) == with_cell(g, x, y, c),
    ensures
        count(g2, opened_p()) == count(g, opened_p()) - ind(is_opened(cell(g, x, y))) + ind(is_opened(c)),
        count(g2, unopened_p()) == count(g, unopened_p()) - ind(!is_opened(cell(g, x, y))) + ind(!is_opened(c)),
        count(g2, flagged_p()) == count(g, flagged_p()) - ind(cell(g, x, y).cell_state == CellState::Flagged)
            + ind(c.cell_state == CellState::Flagged),
        count(g2, mine_p()) == count(g, mine_p()) - ind(is_mine(cell(g, x, y))) + ind(is_mine(c)),
{
    assert(grid(g)[y][x] == cell(g, x, y));
    lemma_grid_count_update(grid(g), x, y, c, opened_p());
    lemma_grid_count_update(grid(g), x, y, c, unopened_p());
    lemma_grid_count_update(grid(g), x, y, c, flagged_p());
    lemma_grid_count_update(grid(g), x, y, c, mine_p());
}

/// The open and closed cells make up the whole board.
proof fn lemma_open_plus_closed(g: Game)
    requires
        rectangular(g),
    ensures
        count(g, opened_p()) + count(g, unopened_p()) == cells_total(g),
        0 <= count(g, opened_p()),
        0 <= count(g, unopened_p()),
        0 <= count(g, flagged_p()),
        0 <= count(g, mine_p()),
        count(g, mine_p()) <= cells_total(g),
{
    assert forall|y: int| 0 <= y < grid(g).len() implies (#[trigger] grid(g)[y]).len() == board_width(g) by {
        assert(g.board@[y]@.len() == board_width(g));
    }
    lemma_count_complement(grid(g), board_width(g));
    lemma_grid_count_bounds(grid(g), board_width(g), opened_p());
    lemma_grid_count_bounds(grid(g), board_width(g), unopened_p());
    lemma_grid_count_bounds(grid(g), board_width(g), flagged_p());
    lemma_grid_count_bounds(grid(g), board_width(g), mine_p());
}

/// Two games have boards of the same shape with mines on the same cells.
pub open spec fn same_mines(g1: Game, g2: Game) -> bool {
    &&& board_height(g1) == board_height(g2)
    &&& board_width(g1) == board_width(g2)
    &&& forall|x: int, y: int| in_bounds(g1, x, y) ==> is_mine(#[trigger] cell(g1, x, y)) == is_mine(cell(g2, x, y))
}

/// The mines around a cell depend on where the mines are, nothing else.
proof fn lemma_mines_around_same(g1: Game, g2: Game, x: int, y: int, k: int)
    requires
        same_mines(g1, g2),
    ensures
        mines_around_upto(g1, x, y, k) == mines_around_upto(g2, x, y, k),
    decreases k,
{
    if k > 0 {
        lemma_mines_around_same(g1, g2, x, y, k - 1);
        let d = offset(k - 1);
        if in_bounds(g1, x + d.0, y + d.1) {
            assert(is_mine(cell(g1, x + d.0, y + d.1)) == is_mine(cell(g2, x + d.0, y + d.1)));
        }
    }
}

proof fn lemma_mines_around_bounds(g: Game, x: int, y: int, k: int)
    ensures
        0 <= mines_around_upto(g, x, y, k),
        k >= 0 ==> mines_around_upto(g, x, y, k) <= k,
        k > 4 ==> mines_around_upto(g, x, y, k) <= k - 1,
    decreases k,
{
    if k > 0 {
        lemma_mines_around_bounds(g, x, y, k - 1);
    }
}

/// A game with the same board shape and contents, and only cell states changed, keeps
/// its numbers and its mine count.
proof fn lemma_same_layout_keeps(g1: Game, g2: Game)
    requires
        rectangular(g1),
        rectangular(g2),
        same_layout(g1, g2),
        numbers_consistent(g1),
    ensures
        numbers_consistent(g2),
{
    assert forall|x: int, y: int| in_bounds(g2, x, y) && !is_mine(#[trigger] cell(g2, x, y)) implies
        cell(g2, x, y).cell_content == shown_content(mines_around(g2, x, y)) by {
        assert(cell(g1, x, y).cell_content == cell(g2, x, y).cell_content);
        assert forall|i: int, j: int| in_bounds(g1, i, j) implies is_mine(#[trigger] cell(g1, i, j)) == is_mine(cell(g2, i, j)) by {
            assert(cell(g1, i, j).cell_content == cell(g2, i, j).cell_content);
        }
        lemma_mines_around_same(g1, g2, x, y, 9);
    }
}

// ---------------------------------------------------------------------------
// Writing single cells
// ---------------------------------------------------------------------------

/// Sets the state of cell `(x, y)`.
fn set_state(game: &mut Game, x: usize, y: usize, s: CellState)
    requires
        rectangular(*old(game)),
        in_bounds(*old(game), x as int, y as int),
    ensures
        grid(*final(game)) == with_cell(*old(game), x as int, y as int, Cell { cell_state: s, ..cell(*old(game), x as int, y as int) }),
        rectangular(*final(game)),
        same_layout(*old(game), *final(game)),
        board_height(*final(game)) == board_height(*old(game)),
        board_width(*final(game)) == board_width(*old(game)),
        forall|i: int, j: int| in_bounds(*old(game), i, j) && (i, j) != (x as int, y as int) ==>
            #[trigger] cell(*final(game), i, j) == cell(*old(game), i, j),
        cell(*final(game), x as int, y as int) == (Cell { cell_state: s, ..cell(*old(game), x as int, y as int) }),
        final(game).opened_count == old(game).opened_count,
        final(game).mine_count == old(game).mine_count,
        final(game).flag_count == old(game).flag_count,
        final(game).game_over == old(game).game_over,
        final(game).game_won == old(game).game_won,
{
    let ghost g0 = *game;
    game.board[y][x].cell_state = s;
    proof {
        let c = Cell { cell_state: s, ..cell(g0, x as int, y as int) };
        assert(grid(*game) =~= with_cell(g0, x as int, y as int, c)) by {
            assert forall|j: int| 0 <= j < grid(*game).len() implies #[trigger] grid(*game)[j] =~= with_cell(g0, x as int, y as int, c)[j] by {
            }
        }
        assert(game.board@[0]@.len() == board_width(g0)) by {
            if y != 0 {
                assert(game.board@[0] == g0.board@[0]);
            }
        }
        assert forall|j: int| 0 <= j < board_height(*game) implies (#[trigger] game.board@[j])@.len() == board_width(*game) by {
            if j != y {
                assert(game.board@[j] == g0.board@[j]);
            }
        }
        assert forall|i: int, j: int| in_bounds(g0, i, j) implies (#[trigger] cell(g0, i, j)).cell_content == cell(*game, i, j).cell_content by {
            if j != y {
                assert(game.board@[j] == g0.board@[j]);
            }
        }
        assert forall|i: int, j: int| in_bounds(g0, i, j) && (i, j) != (x as int, y as int) implies
            #[trigger] cell(*game, i, j) == cell(g0, i, j) by {
            if j != y {
                assert(game.board@[j] == g0.board@[j]);
            }
        }
    }
}

/// Sets the content of cell `(x, y)`.
fn set_content(game: &mut Game, x: usize, y: usize, c: CellContent)
    requires
        rectangular(*old(game)),
        in_bounds(*old(game), x as int, y as int),
    ensures
        grid(*final(game)) == with_cell(*old(game), x as int, y as int, Cell { cell_content: c, ..cell(*old(game), x as int, y as int) }),
        rectangular(*final(game)),
        board_height(*final(game)) == board_height(*old(game)),
        board_width(*final(game)) == board_width(*old(game)),
        forall|i: int, j: int| in_bounds(*old(game), i, j) && (i, j) != (x as int, y as int) ==>
            #[trigger] cell(*final(game), i, j) == cell(*old(game), i, j),
        cell(*final(game), x as int, y as int) == (Cell { cell_content: c, ..cell(*old(game), x as int, y as int) }),
        final(game).opened_count == old(game).opened_count,
        final(game).mine_count == old(game).mine_count,
        final(game).flag_count == old(game).flag_count,
        final(game).game_over == old(game).game_over,
        final(game).game_won == old(game).game_won,
{
    let ghost g0 = *game;
    game.board[y][x].cell_content = c;
    proof {
        let cc = Cell { cell_content: c, ..cell(g0, x as int, y as int) };
        assert(grid(*game) =~= with_cell(g0, x as int, y as int, cc)) by {
            assert forall|j: int| 0 <= j < grid(*game).len() implies #[trigger] grid(*game)[j] =~= with_cell(g0, x as int, y as int, cc)[j] by {
            }
        }
        assert(game.board@[0]@.len() == board_width(g0)) by {
            if y != 0 {
                assert(game.board@[0] == g0.board@[0]);
            }
        }
        assert forall|j: int| 0 <= j < board_height(*game) implies (#[trigger] game.board@[j])@.len() == board_width(*game) by {
            if j != y {
                assert(game.board@[j] == g0.board@[j]);
            }
        }
        assert forall|i: int, j: int| in_bounds(g0, i, j) && (i, j) != (x as int, y as int) implies
            #[trigger] cell(*game, i, j) == cell(g0, i, j) by {
            if j != y {
                assert(game.board@[j] == g0.board@[j]);
            }
        }
    }
}

// ---------------------------------------------------------------------------
// Actions
// ---------------------------------------------------------------------------

/// The cell an action is aimed at, as (column, row).
pub open spec fn target(a: ActionKind) -> (int, int) {
    match a {
        ActionKind::Flag(x, y) => (x as int, y as int),
        ActionKind::Open(x, y) => (x as int, y as int),
    }
}

pub open spec fn target_on_board(g: Game, a: ActionKind) -> bool {
    in_bounds(g, target(a).0, target(a).1)
}

/// The action aims at a cell of the board (its column below the width of the first row,
/// its row below the number of rows).
pub fn is_on_board(game: &Game, action_kind: &ActionKind) -> (r: bool)
    requires
        board_height(*game) > 0,
    ensures
        r == target_on_board(*game, *action_kind),
{
    let (x, y) = match action_kind {
        ActionKind::Open(x, y) => (*x, *y),
        ActionKind::Flag(x, y) => (*x, *y),
    };
    x < game.board[0].len() && y < game.board.len()
}

pub open spec fn spec_flag_allowed(g: Game, a: ActionKind) -> bool {
    &&& a is Flag
    &&& target_on_board(g, a)
    &&& cell(g, target(a).0, target(a).1).cell_state != CellState::Opened
}

pub open spec fn spec_open_allowed(g: Game, a: ActionKind) -> bool {
    &&& a is Open
    &&& target_on_board(g, a)
    &&& cell(g, target(a).0, target(a).1).cell_state == CellState::Unopened
}

/// A flag may be set or taken away on a cell of the board that is not open.
pub fn flag_allowed(game: &Game, action_kind: &ActionKind) -> (r: bool)
    requires
        rectangular(*game),
    ensures
        r == spec_flag_allowed(*game, *action_kind),
{
    if !is_on_board(game, action_kind) {
        return false;
    }
    if let ActionKind::Flag(x, y) = action_kind {
        let st = game.board[*y][*x].cell_state;
        if st == CellState::Unopened || st == CellState::Flagged {
            return true;
        }
    }
    false
}

/// A cell of the board may be opened when it is closed and carries no flag.
pub fn open_allowed(game: &Game, action_kind: &ActionKind) -> (r: bool)
    requires
        rectangular(*game),
    ensures
        r == spec_open_allowed(*game, *action_kind),
{
    if !is_on_board(game, action_kind) {
        return false;
    }
    if let ActionKind::Open(x, y) = action_kind {
        if game.board[*y][*x].cell_state == CellState::Unopened {
            return true;
        }
    }
    false
}

pub open spec fn action_allowed(g: Game, a: ActionKind) -> bool {
    &&& playing(g)
    &&& match a {
        ActionKind::Open(_, _) => spec_open_allowed(g, a),
        ActionKind::Flag(_, _) => spec_flag_allowed(g, a),
    }
}

/// No action is allowed once the game is lost or won; otherwise as `open_allowed` and
/// `flag_allowed` say.
pub fn is_action_allowed(game: &Game, action_kind: &ActionKind) -> (r: bool)
    requires
        rectangular(*game),
    ensures
        r == action_allowed(*game, *action_kind),
{
    if game.game_over {
        return false;
    }
    if game.game_won {
        return false;
    }
    match action_kind {
        ActionKind::Open(_, _) => open_allowed(game, action_kind),
        ActionKind::Flag(_, _) => flag_allowed(game, action_kind),
    }
}

/// The cell after a flag action on it: a closed cell gets a flag while flags are left,
/// a flagged cell loses it, an open cell stays as it is.
pub open spec fn flagged_cell(c: Cell, flags_left: usize) -> Cell {
    if c.cell_state == CellState::Unopened && flags_left > 0 {
        Cell { cell_state: CellState::Flagged, ..c }
    } else if c.cell_state == CellState::Flagged {
        Cell { cell_state: CellState::Unopened, ..c }
    } else {
        c
    }
}

/// The flags left after a flag action on cell `c`.
pub open spec fn flags_after(c: Cell, flags_left: usize) -> int {
    if c.cell_state == CellState::Unopened && flags_left > 0 {
        flags_left - 1
    } else if c.cell_state == CellState::Flagged {
        flags_left + 1
    } else {
        flags_left as int
    }
}

/// Sets a flag on a closed cell (when flags are left) or takes it from a flagged cell;
/// an open action changes nothing.
pub fn flag(game: &mut Game, action_kind: &ActionKind)
    requires
        valid(*old(game)),
        action_kind is Flag ==> target_on_board(*old(game), *action_kind),
    ensures
        valid(*final(game)),
        same_layout(*old(game), *final(game)),
        action_kind is Open ==> *final(game) == *old(game),
        action_kind is Flag ==> {
            let (x, y) = target(*action_kind);
            &&& grid(*final(game)) == with_cell(*old(game), x, y, flagged_cell(cell(*old(game), x, y), old(game).flag_count))
            &&& final(game).flag_count == flags_after(cell(*old(game), x, y), old(game).flag_count)
            &&& final(game).opened_count == old(game).opened_count
            &&& final(game).mine_count == old(game).mine_count
            &&& final(game).game_over == old(game).game_over
            &&& final(game).game_won == old(game).game_won
        },
        forall|i: int, j: int| in_bounds(*old(game), i, j) ==>
            (is_opened(#[trigger] cell(*final(game), i, j)) <==> is_opened(cell(*old(game), i, j))),
{
    if let ActionKind::Flag(x, y) = action_kind {
        let ghost g0 = *game;
        let x = *x;
        let y = *y;
        proof {
            lemma_open_plus_closed(g0);
        }
        if game.board[y][x].cell_state == CellState::Unopened {
            if game.flag_count > 0 {
                set_state(game, x, y, CellState::Flagged);
                game.flag_count = game.flag_count - 1;
                proof {
                    lemma_counts_after_update(g0, *game, x as int, y as int, cell(*game, x as int, y as int));
                    lemma_same_layout_keeps(g0, *game);
                    if playing(g0) {
                        if playing(g0) {
                    lemma_opened_cells_kept(g0, *game);
                }
                    }
                }
            } else {
                proof {
                    lemma_with_same_cell(g0, x as int, y as int);
                }
            }
            return;
        }
        if game.board[y][x].cell_state == CellState::Flagged {
            set_state(game, x, y, CellState::Unopened);
            let ghost g1 = *game;
            proof {
                lemma_counts_after_update(g0, g1, x as int, y as int, cell(g1, x as int, y as int));
                lemma_open_plus_closed(g1);
            }
            game.flag_count = game.flag_count + 1;
            proof {
                lemma_counts_after_update(g0, *game, x as int, y as int, cell(*game, x as int, y as int));
                lemma_same_layout_keeps(g0, *game);
                lemma_open_plus_closed(*game);
                if playing(g0) {
                    lemma_opened_cells_kept(g0, *game);
                }
            }
            return;
        }
        proof {
            lemma_with_same_cell(g0, x as int, y as int);
        }
    }
}

proof fn lemma_sides_fit(g: Game)
    requires
        rectangular(g),
    ensures
        board_width(g) <= cells_total(g),
        board_height(g) <= cells_total(g),
        cells_total(g) <= isize::MAX,
{
    assert(board_width(g) <= board_height(g) * board_width(g)) by (nonlinear_arith)
        requires
            board_height(g) >= 1,
            board_width(g) >= 1,
    ;
    assert(board_height(g) <= board_height(g) * board_width(g)) by (nonlinear_arith)
        requires
            board_height(g) >= 1,
            board_width(g) >= 1,
    ;
}

/// The number of mines on the cells around `(x, y)` (which need not be on the board).
pub fn adjacent_mines(game: &Game, y: &usize, x: &usize) -> (r: u8)
    requires
        rectangular(*game),
        (*x as int) < isize::MAX,
        (*y as int) < isize::MAX,
    ensures
        r as int == mines_around(*game, *x as int, *y as int),
{
    let mut count: u8 = 0;
    let mut k: usize = 0;
    while k < 9
        invariant
            0 <= k <= 9,
            rectangular(*game),
            (*x as int) < isize::MAX,
            (*y as int) < isize::MAX,
            count as int == mines_around_upto(*game, *x as int, *y as int, k as int),
        decreases 9 - k,
    {
        proof {
            lemma_mines_around_bounds(*game, *x as int, *y as int, k as int);
        }
        if k != 4 {
            let dx: isize = (k % 3) as isize - 1;
            let dy: isize = (k / 3) as isize - 1;
            let nx = *x as isize + dx;
            let ny = *y as isize + dy;
            if nx >= 0 && ny >= 0 {
                let nx = nx as usize;
                let ny = ny as usize;
                if ny < game.board.len() && nx < game.board[0].len() {
                    if let CellContent::Mine = game.board[ny][nx].cell_content {
                        count = count + 1;
                    }
                }
            }
        }
        k = k + 1;
    }
    count
}

/// Cell `(x, y)` after the numbers were written: a mine stays, any other cell shows the
/// number of mines around it.
pub open spec fn renumbered(g: Game, x: int, y: int) -> Cell {
    let c = cell(g, x, y);
    if is_mine(c) {
        c
    } else {
        Cell { cell_content: shown_content(mines_around(g, x, y)), ..c }
    }
}

/// Writes on every cell without a mine the number of mines around it (`Blank` for none).
pub fn set_blanks_and_numbers(game: &mut Game)
    requires
        rectangular(*old(game)),
    ensures
        rectangular(*final(game)),
        board_height(*final(game)) == board_height(*old(game)),
        board_width(*final(game)) == board_width(*old(game)),
        forall|x: int, y: int| in_bounds(*old(game), x, y) ==> #[trigger] cell(*final(game), x, y) == renumbered(*old(game), x, y),
        same_mines(*old(game), *final(game)),
        numbers_consistent(*final(game)),
        final(game).opened_count == old(game).opened_count,
        final(game).mine_count == old(game).mine_count,
        final(game).flag_count == old(game).flag_count,
        final(game).game_over == old(game).game_over,
        final(game).game_won == old(game).game_won,
{
    let ghost g0 = *game;
    proof {
        lemma_sides_fit(g0);
    }
    let height = game.board.len();
    let width = game.board[0].len();
    let mut y: usize = 0;
    while y < height
        invariant
            0 <= y <= height,
            height == board_height(g0),
            width == board_width(g0),
            width <= cells_total(g0) <= isize::MAX,
            height <= cells_total(g0),
            rectangular(*game),
            board_height(*game) == board_height(g0),
            board_width(*game) == board_width(g0),
            same_mines(g0, *game),
            forall|i: int, j: int| in_bounds(g0, i, j) ==> #[trigger] cell(*game, i, j) == if j < y { renumbered(g0, i, j) } else { cell(g0, i, j) },
            game.opened_count == g0.opened_count,
            game.mine_count == g0.mine_count,
            game.flag_count == g0.flag_count,
            game.game_over == g0.game_over,
            game.game_won == g0.game_won,
        decreases height - y,
    {
        let mut x: usize = 0;
        while x < width
            invariant
                0 <= x <= width,
                0 <= y < height,
                height == board_height(g0),
                width == board_width(g0),
                width <= cells_total(g0) <= isize::MAX,
                height <= cells_total(g0),
                rectangular(*game),
                board_height(*game) == board_height(g0),
                board_width(*game) == board_width(g0),
                same_mines(g0, *game),
                forall|i: int, j: int| in_bounds(g0, i, j) ==> #[trigger] cell(*game, i, j) ==
                    if j < y || (j == y && i < x) { renumbered(g0, i, j) } else { cell(g0, i, j) },
                game.opened_count == g0.opened_count,
                game.mine_count == g0.mine_count,
                game.flag_count == g0.flag_count,
                game.game_over == g0.game_over,
                game.game_won == g0.game_won,
            decreases width - x,
        {
            if let CellContent::Mine = game.board[y][x].cell_content {
                x = x + 1;
                continue;
            }
            let mines_nearby = adjacent_mines(game, &y, &x);
            proof {
                lemma_mines_around_same(*game, g0, x as int, y as int, 9);
            }
            let ghost g1 = *game;
            if mines_nearby == 0 {
                set_content(game, x, y, CellContent::Blank);
            } else {
                set_content(game, x, y, CellContent::Number(mines_nearby));
            }
            proof {
                assert forall|i: int, j: int| in_bounds(g0, i, j) implies
                    is_mine(#[trigger] cell(g0, i, j)) == is_mine(cell(*game, i, j)) by {
                    assert(is_mine(cell(g0, i, j)) == is_mine(cell(g1, i, j)));
                }
            }
            x = x + 1;
        }
        y = y + 1;
    }
    proof {
        assert forall|x: int, y: int| in_bounds(*game, x, y) && !is_mine(#[trigger] cell(*game, x, y)) implies
            cell(*game, x, y).cell_content == shown_content(mines_around(*game, x, y)) by {
            lemma_mines_around_same(*game, g0, x, y, 9);
            assert(cell(*game, x, y) == renumbered(g0, x, y));
        }
    }
}

/// Cell `(x, y)` after the mines were shown: a mine is open, any other cell stays.
pub open spec fn revealed(g: Game, x: int, y: int) -> Cell {
    let c = cell(g, x, y);
    if is_mine(c) { Cell { cell_state: CellState::Opened, ..c } } else { c }
}

/// Opens every cell that holds a mine.
pub fn reveal_mines(game: &mut Game)
    requires
        rectangular(*old(game)),
    ensures
        rectangular(*final(game)),
        board_height(*final(game)) == board_height(*old(game)),
        board_width(*final(game)) == board_width(*old(game)),
        forall|x: int, y: int| in_bounds(*old(game), x, y) ==> #[trigger] cell(*final(game), x, y) == revealed(*old(game), x, y),
        same_layout(*old(game), *final(game)),
        count(*final(game), opened_p()) >= count(*old(game), opened_p()),
        count(*final(game), flagged_p()) <= count(*old(game), flagged_p()),
        count(*final(game), mine_p()) == count(*old(game), mine_p()),
        final(game).opened_count == old(game).opened_count,
        final(game).mine_count == old(game).mine_count,
        final(game).flag_count == old(game).flag_count,
        final(game).game_over == old(game).game_over,
        final(game).game_won == old(game).game_won,
        valid(*old(game)) && !playing(*old(game)) ==> valid(*final(game)),
{
    let ghost g0 = *game;
    let height = game.board.len();
    let width = game.board[0].len();
    let mut y: usize = 0;
    while y < height
        invariant
            0 <= y <= height,
            height == board_height(g0),
            width == board_width(g0),
            rectangular(*game),
            board_height(*game) == board_height(g0),
            board_width(*game) == board_width(g0),
            same_layout(g0, *game),
            forall|i: int, j: int| in_bounds(g0, i, j) ==> #[trigger] cell(*game, i, j) == if j < y { revealed(g0, i, j) } else { cell(g0, i, j) },
            count(*game, opened_p()) >= count(g0, opened_p()),
            count(*game, flagged_p()) <= count(g0, flagged_p()),
            count(*game, mine_p()) == count(g0, mine_p()),
            game.opened_count == g0.opened_count,
            game.mine_count == g0.mine_count,
            game.flag_count == g0.flag_count,
            game.game_over == g0.game_over,
            game.game_won == g0.game_won,
        decreases height - y,
    {
        let mut x: usize = 0;
        while x < width
            invariant
                0 <= x <= width,
                0 <= y < height,
                height == board_height(g0),
                width == board_width(g0),
                rectangular(*game),
                board_height(*game) == board_height(g0),
                board_width(*game) == board_width(g0),
                same_layout(g0, *game),
                forall|i: int, j: int| in_bounds(g0, i, j) ==> #[trigger] cell(*game, i, j) ==
                    if j < y || (j == y && i < x) { revealed(g0, i, j) } else { cell(g0, i, j) },
                count(*game, opened_p()) >= count(g0, opened_p()),
                count(*game, flagged_p()) <= count(g0, flagged_p()),
                count(*game, mine_p()) == count(g0, mine_p()),
                game.opened_count == g0.opened_count,
                game.mine_count == g0.mine_count,
                game.flag_count == g0.flag_count,
                game.game_over == g0.game_over,
                game.game_won == g0.game_won,
            decreases width - x,
        {
            if let CellContent::Mine = game.board[y][x].cell_content {
                let ghost g1 = *game;
                set_state(game, x, y, CellState::Opened);
                proof {
                    lemma_counts_after_update(g1, *game, x as int, y as int, cell(*game, x as int, y as int));
                    assert forall|i: int, j: int| in_bounds(g0, i, j) implies
                        (#[trigger] cell(g0, i, j)).cell_content == cell(*game, i, j).cell_content by {
                        assert(cell(g0, i, j).cell_content == cell(g1, i, j).cell_content);
                    }
                }
            }
            x = x + 1;
        }
        y = y + 1;
    }
    proof {
        if numbers_consistent(g0) {
            lemma_same_layout_keeps(g0, *game);
        }
    }
}

/// The game is lost: all mines are shown.
pub fn boom(game: &mut Game)
    requires
        consistent(*old(game)),
    ensures
        valid(*final(game)),
        final(game).game_over,
        !final(game).game_won,
        board_height(*final(game)) == board_height(*old(game)),
        board_width(*final(game)) == board_width(*old(game)),
        forall|x: int, y: int| in_bounds(*old(game), x, y) ==> #[trigger] cell(*final(game), x, y) == revealed(*old(game), x, y),
        same_layout(*old(game), *final(game)),
        final(game).opened_count == old(game).opened_count,
        final(game).mine_count == old(game).mine_count,
        final(game).flag_count == old(game).flag_count,
{
    game.game_over = true;
    game.game_won = false;
    let ghost g1 = *game;
    proof {
        lemma_same_layout_keeps(*old(game), g1);
    }
    reveal_mines(game);
}

// ---------------------------------------------------------------------------
// Cells without a mine
// ---------------------------------------------------------------------------

/// The cells `(x, y)` with `x < n` of row `y` that hold no mine, from left to right.
pub open spec fn free_in_row(g: Game, y: int, n: int) -> Seq<(usize, usize)>
    decreases n,
{
    if n <= 0 {
        Seq::empty()
    } else {
        let r = free_in_row(g, y, n - 1);
        if !is_mine(cell(g, n - 1, y)) { r.push(((n - 1) as usize, y as usize)) } else { r }
    }
}

/// The cells of rows `0..m` that hold no mine, row by row.
pub open spec fn free_upto(g: Game, m: int) -> Seq<(usize, usize)>
    decreases m,
{
    if m <= 0 {
        Seq::empty()
    } else {
        free_upto(g, m - 1) + free_in_row(g, m - 1, board_width(g))
    }
}

/// All cells without a mine, in reading order.
pub open spec fn free_cells(g: Game) -> Seq<(usize, usize)> {
    free_upto(g, board_height(g))
}

proof fn lemma_free_in_row_len(g: Game, y: int, n: int)
    requires
        rectangular(g),
        0 <= y < board_height(g),
        0 <= n <= g.board@[y]@.len(),
    ensures
        free_in_row(g, y, n).len() + row_count(grid(g)[y].take(n), mine_p()) == n,
        forall|i: int| 0 <= i < free_in_row(g, y, n).len() ==> {
            let q = #[trigger] free_in_row(g, y, n)[i];
            &&& q.0 < n
            &&& q.1 == y
            &&& !is_mine(cell(g, q.0 as int, q.1 as int))
        },
    decreases n,
{
    if n > 0 {
        lemma_free_in_row_len(g, y, n - 1);
        lemma_sides_fit(g);
        assert(g.board@[y]@.len() == board_width(g));
        assert(grid(g)[y].take(n).drop_last() =~= grid(g)[y].take(n - 1));
        assert(grid(g)[y].take(n).last() == cell(g, n - 1, y));
        let r = free_in_row(g, y, n - 1);
        assert forall|i: int| 0 <= i < free_in_row(g, y, n).len() implies {
            let q = #[trigger] free_in_row(g, y, n)[i];
            &&& q.0 < n
            &&& q.1 == y
            &&& !is_mine(cell(g, q.0 as int, q.1 as int))
        } by {
            if i < r.len() {
                assert(free_in_row(g, y, n)[i] == r[i]);
            } else {
                assert(free_in_row(g, y, n)[i] == ((n - 1) as usize, y as usize));
            }
        }
    }
}

proof fn lemma_free_upto_len(g: Game, m: int)
    requires
        rectangular(g),
        0 <= m <= board_height(g),
    ensures
        free_upto(g, m).len() + grid_count(grid(g).take(m), mine_p()) == m * board_width(g),
        forall|i: int| 0 <= i < free_upto(g, m).len() ==> {
            let q = #[trigger] free_upto(g, m)[i];
            &&& in_bounds(g, q.0 as int, q.1 as int)
            &&& q.1 < m
            &&& !is_mine(cell(g, q.0 as int, q.1 as int))
        },
    decreases m,
{
    if m > 0 {
        lemma_free_upto_len(g, m - 1);
        let w = board_width(g);
        assert(g.board@[m - 1]@.len() == w);
        lemma_free_in_row_len(g, m - 1, w);
        assert(grid(g)[m - 1].take(w) =~= grid(g)[m - 1]);
        assert(grid(g).take(m).drop_last() =~= grid(g).take(m - 1));
        assert(grid(g).take(m).last() == grid(g)[m - 1]);
        assert((m - 1) * w + w == m * w) by (nonlinear_arith);
        let a = free_upto(g, m - 1);
        let b = free_in_row(g, m - 1, w);
        assert forall|i: int| 0 <= i < (a + b).len() implies {
            let q = #[trigger] (a + b)[i];
            &&& in_bounds(g, q.0 as int, q.1 as int)
            &&& q.1 < m
            &&& !is_mine(cell(g, q.0 as int, q.1 as int))
        } by {
            if i >= a.len() {
                assert((a + b)[i] == b[i - a.len()]);
            }
        }
    }
}

/// There are as many cells without a mine as cells minus mines.
proof fn lemma_free_cells_len(g: Game)
    requires
        rectangular(g),
    ensures
        free_cells(g).len() == cells_total(g) - count(g, mine_p()),
        forall|i: int| 0 <= i < free_cells(g).len() ==> {
            let q = #[trigger] free_cells(g)[i];
            &&& in_bounds(g, q.0 as int, q.1 as int)
            &&& !is_mine(cell(g, q.0 as int, q.1 as int))
        },
{
    lemma_free_upto_len(g, board_height(g));
    assert(grid(g).take(board_height(g)) =~= grid(g));
}

proof fn lemma_free_in_row_prefix(g: Game, y: int, n: int, n2: int)
    requires
        0 <= n <= n2,
    ensures
        free_in_row(g, y, n).len() <= free_in_row(g, y, n2).len(),
        forall|i: int| 0 <= i < free_in_row(g, y, n).len() ==> #[trigger] free_in_row(g, y, n2)[i] == free_in_row(g, y, n)[i],
    decreases n2 - n,
{
    if n < n2 {
        lemma_free_in_row_prefix(g, y, n, n2 - 1);
    }
}

proof fn lemma_free_upto_prefix(g: Game, m: int, m2: int)
    requires
        0 <= m <= m2,
    ensures
        free_upto(g, m).len() <= free_upto(g, m2).len(),
        forall|i: int| 0 <= i < free_upto(g, m).len() ==> #[trigger] free_upto(g, m2)[i] == free_upto(g, m)[i],
    decreases m2 - m,
{
    if m < m2 {
        lemma_free_upto_prefix(g, m, m2 - 1);
    }
}

/// The free cell `(x, y)` comes in reading order after the free cells of the rows above
/// and those to its left.
proof fn lemma_free_cell_index(g: Game, x: int, y: int)
    requires
        rectangular(g),
        in_bounds(g, x, y),
        !is_mine(cell(g, x, y)),
    ensures
        free_upto(g, y).len() + free_in_row(g, y, x).len() < free_cells(g).len(),
        free_cells(g)[(free_upto(g, y).len() + free_in_row(g, y, x).len()) as int] == (x as usize, y as usize),
{
    let w = board_width(g);
    lemma_free_in_row_prefix(g, y, x + 1, w);
    lemma_free_upto_prefix(g, y + 1, board_height(g));
    let a = free_upto(g, y);
    let b = free_in_row(g, y, w);
    let k = (a.len() + free_in_row(g, y, x).len()) as int;
    assert(free_in_row(g, y, x + 1)[free_in_row(g, y, x).len() as int] == (x as usize, y as usize));
    assert(free_upto(g, y + 1) == a + b);
    assert((a + b)[k] == b[k - a.len()]);
}

/// The `n`-th cell without a mine, in reading order (row by row), as (column, row).
pub fn nth_cell_without_mine(game: &Game, n: usize) -> (r: (usize, usize))
    requires
        rectangular(*game),
        (n as int) < free_cells(*game).len(),
    ensures
        r == free_cells(*game)[n as int],
        in_bounds(*game, r.0 as int, r.1 as int),
        !mine_at(*game, r.0 as int, r.1 as int),
{
    let ghost g = *game;
    proof {
        lemma_free_cells_len(g);
        lemma_free_upto_prefix(g, 0, board_height(g));
    }
    let height = game.board.len();
    let width = game.board[0].len();
    let mut seen: usize = 0;
    let mut y: usize = 0;
    while y < height
        invariant
            0 <= y <= height,
            height == board_height(g),
            width == board_width(g),
            rectangular(g),
            *game == g,
            seen as int == free_upto(g, y as int).len(),
            (n as int) < free_cells(g).len(),
            seen <= n,
        decreases height - y,
    {
        let mut x: usize = 0;
        while x < width
            invariant
                0 <= x <= width,
                0 <= y < height,
                height == board_height(g),
                width == board_width(g),
                rectangular(g),
                *game == g,
                seen as int == free_upto(g, y as int).len() + free_in_row(g, y as int, x as int).len(),
                (n as int) < free_cells(g).len(),
                seen <= n,
            decreases width - x,
        {
            if game.board[y][x].cell_content != CellContent::Mine {
                proof {
                    lemma_free_cell_index(g, x as int, y as int);
                }
                if seen == n {
                    return (x, y);
                }
                seen = seen + 1;
            }
            x = x + 1;
        }
        proof {
            assert(g.board@[y as int]@.len() == width);
        }
        y = y + 1;
    }
    proof {
        assert(free_upto(g, height as int) == free_cells(g));
    }
    (0, 0)
}

/// A cell without a mine, drawn at random with equal chances among all such cells
/// (given as (column, row)).
pub fn cell_without_mine(game: &Game) -> (r: (usize, usize))
    requires
        rectangular(*game),
        count(*game, mine_p()) < cells_total(*game),
    ensures
        in_bounds(*game, r.0 as int, r.1 as int),
        !mine_at(*game, r.0 as int, r.1 as int),
{
    proof {
        lemma_free_cells_len(*game);
        lemma_sides_fit(*game);
    }
    let free = count_cells_without_mine(game);
    let k = random_below(free);
    nth_cell_without_mine(game, k)
}

/// The number of cells without a mine.
fn count_cells_without_mine(game: &Game) -> (r: usize)
    requires
        rectangular(*game),
    ensures
        r as int == free_cells(*game).len(),
{
    let ghost g = *game;
    proof {
        lemma_free_cells_len(g);
        lemma_free_upto_prefix(g, 0, board_height(g));
        lemma_open_plus_closed(g);
    }
    let height = game.board.len();
    let width = game.board[0].len();
    let mut seen: usize = 0;
    let mut y: usize = 0;
    while y < height
        invariant
            0 <= y <= height,
            height == board_height(g),
            width == board_width(g),
            rectangular(g),
            *game == g,
            seen as int == free_upto(g, y as int).len(),
            free_upto(g, y as int).len() <= free_cells(g).len() <= cells_total(g) <= isize::MAX,
        decreases height - y,
    {
        let mut x: usize = 0;
        while x < width
            invariant
                0 <= x <= width,
                0 <= y < height,
                height == board_height(g),
                width == board_width(g),
                rectangular(g),
                *game == g,
                seen as int == free_upto(g, y as int).len() + free_in_row(g, y as int, x as int).len(),
                free_upto(g, y as int).len() + free_in_row(g, y as int, x as int).len() <= free_cells(g).len(),
                free_cells(g).len() <= cells_total(g) <= isize::MAX,
            decreases width - x,
        {
            proof {
                assert(g.board@[y as int]@.len() == width);
                lemma_free_in_row_prefix(g, y as int, x as int + 1, width as int);
                lemma_free_upto_prefix(g, y as int + 1, height as int);
                lemma_count_nonneg(g);
            }
            if game.board[y][x].cell_content != CellContent::Mine {
                seen = seen + 1;
            }
            x = x + 1;
        }
        proof {
            assert(g.board@[y as int]@.len() == width);
        }
        y = y + 1;
    }
    seen
}

proof fn lemma_count_nonneg(g: Game)
    requires
        rectangular(g),
    ensures
        count(g, mine_p()) >= 0,
{
    lemma_open_plus_closed(g);
}

proof fn lemma_row_count_same(r1: Seq<Cell>, r2: Seq<Cell>, p: spec_fn(Cell) -> bool)
    requires
        r1.len() == r2.len(),
        forall|i: int| 0 <= i < r1.len() ==> p(#[trigger] r1[i]) == p(r2[i]),
    ensures
        row_count(r1, p) == row_count(r2, p),
    decreases r1.len(),
{
    if r1.len() > 0 {
        lemma_row_count_same(r1.drop_last(), r2.drop_last(), p);
        assert(p(r1[r1.len() - 1]) == p(r2[r1.len() - 1]));
    }
}

proof fn lemma_grid_count_same(a: Seq<Seq<Cell>>, b: Seq<Seq<Cell>>, p: spec_fn(Cell) -> bool)
    requires
        a.len() == b.len(),
        forall|y: int| 0 <= y < a.len() ==> (#[trigger] a[y]).len() == b[y].len(),
        forall|y: int, x: int| 0 <= y < a.len() && 0 <= x < a[y].len() ==> p(#[trigger] a[y][x]) == p(b[y][x]),
    ensures
        grid_count(a, p) == grid_count(b, p),
    decreases a.len(),
{
    if a.len() > 0 {
        let n = a.len() - 1;
        assert forall|y: int, x: int| 0 <= y < a.drop_last().len() && 0 <= x < a.drop_last()[y].len() implies
            p(#[trigger] a.drop_last()[y][x]) == p(b.drop_last()[y][x]) by {
            assert(a.drop_last()[y] == a[y]);
            assert(b.drop_last()[y] == b[y]);
        }
        lemma_grid_count_same(a.drop_last(), b.drop_last(), p);
        assert(a[n].len() == b[n].len());
        assert forall|i: int| 0 <= i < a[n].len() implies p(#[trigger] a[n][i]) == p(b[n][i]) by {
            assert(p(a[n][i]) == p(b[n][i]));
        }
        lemma_row_count_same(a[n], b[n], p);
    }
}

/// Counts agree on two boards of one shape where each cell has the property in both or
/// in neither.
proof fn lemma_count_same(g1: Game, g2: Game, p: spec_fn(Cell) -> bool)
    requires
        rectangular(g1),
        rectangular(g2),
        board_height(g1) == board_height(g2),
        board_width(g1) == board_width(g2),
        forall|x: int, y: int| in_bounds(g1, x, y) ==> p(#[trigger] cell(g1, x, y)) == p(cell(g2, x, y)),
    ensures
        count(g1, p) == count(g2, p),
{
    assert forall|y: int| 0 <= y < grid(g1).len() implies (#[trigger] grid(g1)[y]).len() == grid(g2)[y].len() by {
        assert(g1.board@[y]@.len() == board_width(g1));
        assert(g2.board@[y]@.len() == board_width(g2));
    }
    assert forall|y: int, x: int| 0 <= y < grid(g1).len() && 0 <= x < grid(g1)[y].len() implies
        p(#[trigger] grid(g1)[y][x]) == p(grid(g2)[y][x]) by {
        assert(g1.board@[y]@.len() == board_width(g1));
        assert(p(cell(g1, x, y)) == p(cell(g2, x, y)));
    }
    lemma_grid_count_same(grid(g1), grid(g2), p);
}

proof fn lemma_row_count_zero(r: Seq<Cell>, p: spec_fn(Cell) -> bool)
    requires
        row_count(r, p) == 0,
    ensures
        forall|i: int| 0 <= i < r.len() ==> !p(#[trigger] r[i]),
    decreases r.len(),
{
    if r.len() > 0 {
        lemma_row_count_bounds(r.drop_last(), p);
        lemma_row_count_zero(r.drop_last(), p);
        assert forall|i: int| 0 <= i < r.len() implies !p(#[trigger] r[i]) by {
            if i < r.len() - 1 {
                assert(r[i] == r.drop_last()[i]);
            }
        }
    }
}

proof fn lemma_grid_count_zero(a: Seq<Seq<Cell>>, p: spec_fn(Cell) -> bool)
    requires
        grid_count(a, p) == 0,
    ensures
        forall|y: int, x: int| 0 <= y < a.len() && 0 <= x < a[y].len() ==> !p(#[trigger] a[y][x]),
    decreases a.len(),
{
    if a.len() > 0 {
        lemma_row_count_bounds(a.last(), p);
        lemma_grid_count_nonneg(a.drop_last(), p);
        lemma_grid_count_zero(a.drop_last(), p);
        lemma_row_count_zero(a.last(), p);
        assert forall|y: int, x: int| 0 <= y < a.len() && 0 <= x < a[y].len() implies !p(#[trigger] a[y][x]) by {
            if y < a.len() - 1 {
                assert(a[y] == a.drop_last()[y]);
            } else {
                assert(a[y] == a.last());
            }
        }
    }
}

proof fn lemma_grid_count_nonneg(a: Seq<Seq<Cell>>, p: spec_fn(Cell) -> bool)
    ensures
        grid_count(a, p) >= 0,
    decreases a.len(),
{
    if a.len() > 0 {
        lemma_grid_count_nonneg(a.drop_last(), p);
        lemma_row_count_bounds(a.last(), p);
    }
}

/// With no open cell counted, no cell is open.
proof fn lemma_no_opened(g: Game)
    requires
        rectangular(g),
        count(g, opened_p()) == 0,
    ensures
        forall|x: int, y: int| in_bounds(g, x, y) ==> !is_opened(#[trigger] cell(g, x, y)),
{
    lemma_grid_count_zero(grid(g), opened_p());
    assert forall|x: int, y: int| in_bounds(g, x, y) implies !is_opened(#[trigger] cell(g, x, y)) by {
        assert(g.board@[y]@.len() == board_width(g));
        assert(grid(g)[y][x] == cell(g, x, y));
    }
}

/// Moves the mine on `(mine_x, mine_y)` to a cell without a mine drawn at random, and
/// writes the numbers anew.
pub fn move_mine_away(game: &mut Game, mine_x: usize, mine_y: usize)
    requires
        consistent(*old(game)),
        mine_at(*old(game), mine_x as int, mine_y as int),
    ensures
        consistent(*final(game)),
        board_height(*final(game)) == board_height(*old(game)),
        board_width(*final(game)) == board_width(*old(game)),
        forall|x: int, y: int| in_bounds(*old(game), x, y) ==>
            (#[trigger] cell(*final(game), x, y)).cell_state == cell(*old(game), x, y).cell_state,
        !mine_at(*final(game), mine_x as int, mine_y as int),
        exists|mx: int, my: int| {
            &&& in_bounds(*old(game), mx, my)
            &&& !mine_at(*old(game), mx, my)
            &&& forall|x: int, y: int| in_bounds(*old(game), x, y) ==>
                (is_mine(#[trigger] cell(*final(game), x, y)) <==> ((x, y) == (mx, my) || ((x, y) != (mine_x as int, mine_y as int) && is_mine(cell(*old(game), x, y)))))
        },
        count(*final(game), opened_p()) == count(*old(game), opened_p()),
        count(*final(game), unopened_p()) == count(*old(game), unopened_p()),
        count(*final(game), flagged_p()) == count(*old(game), flagged_p()),
        final(game).opened_count == old(game).opened_count,
        final(game).mine_count == old(game).mine_count,
        final(game).flag_count == old(game).flag_count,
        final(game).game_over == old(game).game_over,
        final(game).game_won == old(game).game_won,
{
    let ghost g0 = *game;
    let (mx, my) = cell_without_mine(game);
    set_content(game, mx, my, CellContent::Mine);
    let ghost g1 = *game;
    proof {
        lemma_counts_after_update(g0, g1, mx as int, my as int, cell(g1, mx as int, my as int));
    }
    set_content(game, mine_x, mine_y, CellContent::Blank);
    let ghost g2 = *game;
    proof {
        lemma_counts_after_update(g1, g2, mine_x as int, mine_y as int, cell(g2, mine_x as int, mine_y as int));
    }
    set_blanks_and_numbers(game);
    proof {
        let g3 = *game;
        assert forall|x: int, y: int| in_bounds(g0, x, y) implies
            (#[trigger] cell(g3, x, y)).cell_state == cell(g0, x, y).cell_state by {
            assert(cell(g3, x, y) == renumbered(g2, x, y));
        }
        assert forall|x: int, y: int| in_bounds(g0, x, y) implies
            (is_mine(#[trigger] cell(g3, x, y)) <==> ((x, y) == (mx as int, my as int) || ((x, y) != (mine_x as int, mine_y as int) && is_mine(cell(g0, x, y))))) by {
            assert(cell(g3, x, y) == renumbered(g2, x, y));
        }
        assert(cell(g3, mine_x as int, mine_y as int) == renumbered(g2, mine_x as int, mine_y as int));
        assert forall|x: int, y: int| in_bounds(g0, x, y) implies
            opened_p()(#[trigger] cell(g0, x, y)) == opened_p()(cell(g3, x, y)) by {
            assert(cell(g3, x, y) == renumbered(g2, x, y));
        }
        assert forall|x: int, y: int| in_bounds(g0, x, y) implies
            unopened_p()(#[trigger] cell(g0, x, y)) == unopened_p()(cell(g3, x, y)) by {
            assert(cell(g3, x, y) == renumbered(g2, x, y));
        }
        assert forall|x: int, y: int| in_bounds(g0, x, y) implies
            flagged_p()(#[trigger] cell(g0, x, y)) == flagged_p()(cell(g3, x, y)) by {
            assert(cell(g3, x, y) == renumbered(g2, x, y));
        }
        assert forall|x: int, y: int| in_bounds(g2, x, y) implies
            mine_p()(#[trigger] cell(g2, x, y)) == mine_p()(cell(g3, x, y)) by {
            assert(cell(g3, x, y) == renumbered(g2, x, y));
        }
        lemma_count_same(g0, g3, opened_p());
        lemma_count_same(g0, g3, unopened_p());
        lemma_count_same(g0, g3, flagged_p());
        lemma_count_same(g2, g3, mine_p());
        assert(in_bounds(g0, mx as int, my as int) && !mine_at(g0, mx as int, my as int));
    }
}

// ---------------------------------------------------------------------------
// Opening cells
// ---------------------------------------------------------------------------

/// Every cell keeps its state or ends up open.
pub open spec fn only_opens(g0: Game, g: Game) -> bool {
    forall|x: int, y: int| in_bounds(g0, x, y) ==>
        (#[trigger] cell(g, x, y)).cell_state == cell(g0, x, y).cell_state || is_opened(cell(g, x, y))
}

/// The `k`-th cell of the block around `(x, y)` is the cell itself, off the board, a
/// mine, or open.
pub open spec fn neighbour_open(g: Game, x: int, y: int, k: int) -> bool {
    let d = offset(k);
    ||| k == 4
    ||| !in_bounds(g, x + d.0, y + d.1)
    ||| is_mine(cell(g, x + d.0, y + d.1))
    ||| is_opened(cell(g, x + d.0, y + d.1))
}

/// All cells around `(x, y)` without a mine are open.
pub open spec fn safe_neighbours_open(g: Game, x: int, y: int) -> bool {
    forall|k: int| 0 <= k < 9 ==> #[trigger] neighbour_open(g, x, y, k)
}

/// Every blank cell opened since `g0` has all cells around it without a mine open: the
/// opening spread as far as blank cells reach.
pub open spec fn flood_closed(g0: Game, g: Game) -> bool {
    forall|x: int, y: int|
        in_bounds(g0, x, y) && !is_opened(cell(g0, x, y)) && is_opened(#[trigger] cell(g, x, y))
            && cell(g, x, y).cell_content == CellContent::Blank ==> safe_neighbours_open(g, x, y)
}

/// Opened cells stay open.
pub open spec fn keeps_open(g1: Game, g2: Game) -> bool {
    forall|x: int, y: int| in_bounds(g1, x, y) && is_opened(cell(g1, x, y)) ==> is_opened(#[trigger] cell(g2, x, y))
}

proof fn lemma_neighbours_stay_open(g1: Game, g2: Game, x: int, y: int)
    requires
        safe_neighbours_open(g1, x, y),
        keeps_open(g1, g2),
        same_layout(g1, g2),
    ensures
        safe_neighbours_open(g2, x, y),
{
    assert forall|k: int| 0 <= k < 9 implies #[trigger] neighbour_open(g2, x, y, k) by {
        assert(neighbour_open(g1, x, y, k));
        let d = offset(k);
        if in_bounds(g1, x + d.0, y + d.1) {
            assert(cell(g1, x + d.0, y + d.1).cell_content == cell(g2, x + d.0, y + d.1).cell_content);
        }
    }
}

proof fn lemma_flood_closed_trans(g0: Game, g1: Game, g2: Game)
    requires
        flood_closed(g0, g1),
        flood_closed(g1, g2),
        keeps_open(g1, g2),
        same_layout(g1, g2),
        board_height(g0) == board_height(g1),
        board_width(g0) == board_width(g1),
    ensures
        flood_closed(g0, g2),
{
    assert forall|x: int, y: int|
        in_bounds(g0, x, y) && !is_opened(cell(g0, x, y)) && is_opened(#[trigger] cell(g2, x, y))
            && cell(g2, x, y).cell_content == CellContent::Blank implies safe_neighbours_open(g2, x, y) by {
        assert(cell(g1, x, y).cell_content == cell(g2, x, y).cell_content);
        if is_opened(cell(g1, x, y)) {
            lemma_neighbours_stay_open(g1, g2, x, y);
        }
    }
}

proof fn lemma_only_opens_keeps_open(g0: Game, g: Game)
    requires
        only_opens(g0, g),
    ensures
        keeps_open(g0, g),
{
    assert forall|x: int, y: int| in_bounds(g0, x, y) && is_opened(cell(g0, x, y)) implies is_opened(#[trigger] cell(g, x, y)) by {
        assert(cell(g, x, y).cell_state == cell(g0, x, y).cell_state || is_opened(cell(g, x, y)));
    }
}

pub open spec fn open_tag(g: Game, a: ActionKind) -> int {
    match a {
        ActionKind::Open(x, y) => if mine_at(g, x as int, y as int) && g.opened_count == 0 { 2 } else { 1 },
        ActionKind::Flag(_, _) => 1,
    }
}

/// Opens the cell of an open action (a flag action changes nothing). On the first
/// opening a mine is first moved away. A number is shown; a blank cell opens all cells
/// around it that hold no mine, and so on from each blank cell opened; a mine ends the
/// game and shows all mines.
pub fn open(game: &mut Game, action_kind: &ActionKind)
    requires
        valid(*old(game)),
        playing(*old(game)),
        action_kind is Open ==> target_on_board(*old(game), *action_kind),
    ensures
        valid(*final(game)),
        action_kind is Flag ==> *final(game) == *old(game),
        action_kind is Open ==> {
            let (x, y) = target(*action_kind);
            let hit = mine_at(*old(game), x, y) && old(game).opened_count > 0;
            &&& board_height(*final(game)) == board_height(*old(game))
            &&& board_width(*final(game)) == board_width(*old(game))
            &&& only_opens(*old(game), *final(game))
            &&& is_opened(cell(*final(game), x, y))
            &&& !final(game).game_won
            &&& final(game).game_over == hit
            &&& final(game).mine_count == old(game).mine_count
            &&& final(game).opened_count >= old(game).opened_count
            &&& final(game).opened_count > 0
            &&& count(*final(game), unopened_p()) <= count(*old(game), unopened_p())
            &&& old(game).opened_count > 0 ==> same_layout(*old(game), *final(game))
            &&& flood_closed(*old(game), *final(game))
            &&& hit ==> forall|i: int, j: int| in_bounds(*old(game), i, j) ==>
                #[trigger] cell(*final(game), i, j) == revealed(*old(game), i, j)
        },
    decreases count(*old(game), unopened_p()), open_tag(*old(game), *action_kind),
{
    if let ActionKind::Open(x, y) = action_kind {
        let ghost g0 = *game;
        let x = *x;
        let y = *y;
        proof {
            lemma_open_plus_closed(g0);
            lemma_sides_fit(g0);
        }
        if game.board[y][x].cell_content == CellContent::Mine && game.opened_count == 0 {
            move_mine_away(game, x, y);
            let ghost g1 = *game;
            proof {
                lemma_no_opened(g0);
                assert forall|i: int, j: int| in_bounds(g1, i, j) && is_opened(#[trigger] cell(g1, i, j)) implies !is_mine(cell(g1, i, j)) by {
                    assert(cell(g1, i, j).cell_state == cell(g0, i, j).cell_state);
                }
            }
            open(game, action_kind);
            proof {
                let g2 = *game;
                assert forall|i: int, j: int| in_bounds(g0, i, j) implies
                    (#[trigger] cell(g2, i, j)).cell_state == cell(g0, i, j).cell_state || is_opened(cell(g2, i, j)) by {
                    assert(cell(g1, i, j).cell_state == cell(g0, i, j).cell_state);
                    assert(cell(g2, i, j).cell_state == cell(g1, i, j).cell_state || is_opened(cell(g2, i, j)));
                }
                assert forall|i: int, j: int|
                    in_bounds(g0, i, j) && !is_opened(cell(g0, i, j)) && is_opened(#[trigger] cell(g2, i, j))
                        && cell(g2, i, j).cell_content == CellContent::Blank implies safe_neighbours_open(g2, i, j) by {
                    assert(cell(g1, i, j).cell_state == cell(g0, i, j).cell_state);
                }
            }
            return;
        }
        if game.board[y][x].cell_state == CellState::Opened {
            proof {
                assert(same_layout(g0, *game));
                lemma_only_opens_refl(g0);
                lemma_opened_cell_counted(g0, x as int, y as int);
            }
            return;
        }
        if let CellContent::Number(_) = game.board[y][x].cell_content {
            set_state(game, x, y, CellState::Opened);
            proof {
                lemma_counts_after_update(g0, *game, x as int, y as int, cell(*game, x as int, y as int));
            }
            game.opened_count = game.opened_count + 1;
            proof {
                lemma_same_layout_keeps(g0, *game);
                assert forall|i: int, j: int| in_bounds(*game, i, j) && is_opened(#[trigger] cell(*game, i, j)) implies !is_mine(cell(*game, i, j)) by {
                    if (i, j) != (x as int, y as int) {
                        assert(cell(*game, i, j) == cell(g0, i, j));
                    }
                }
                assert forall|i: int, j: int|
                    in_bounds(g0, i, j) && !is_opened(cell(g0, i, j)) && is_opened(#[trigger] cell(*game, i, j))
                        && cell(*game, i, j).cell_content == CellContent::Blank implies safe_neighbours_open(*game, i, j) by {
                    if (i, j) != (x as int, y as int) {
                        assert(cell(*game, i, j) == cell(g0, i, j));
                    }
                }
            }
        }
        if game.board[y][x].cell_content == CellContent::Blank {
            set_state(game, x, y, CellState::Opened);
            proof {
                lemma_counts_after_update(g0, *game, x as int, y as int, cell(*game, x as int, y as int));
            }
            game.opened_count = game.opened_count + 1;
            let ghost g1 = *game;
            proof {
                lemma_open_plus_closed(g1);
                lemma_same_layout_keeps(g0, g1);
                assert forall|i: int, j: int| in_bounds(g1, i, j) && is_opened(#[trigger] cell(g1, i, j)) implies !is_mine(cell(g1, i, j)) by {
                    if (i, j) != (x as int, y as int) {
                        assert(cell(g1, i, j) == cell(g0, i, j));
                    }
                }
            }
            flood_fill(game, &y, &x);
            proof {
                let g2 = *game;
                assert forall|i: int, j: int| in_bounds(g0, i, j) implies
                    (#[trigger] cell(g2, i, j)).cell_state == cell(g0, i, j).cell_state || is_opened(cell(g2, i, j)) by {
                    if (i, j) != (x as int, y as int) {
                        assert(cell(g1, i, j) == cell(g0, i, j));
                    }
                    assert(cell(g2, i, j).cell_state == cell(g1, i, j).cell_state || is_opened(cell(g2, i, j)));
                }
                assert forall|i: int, j: int|
                    in_bounds(g0, i, j) && !is_opened(cell(g0, i, j)) && is_opened(#[trigger] cell(g2, i, j))
                        && cell(g2, i, j).cell_content == CellContent::Blank implies safe_neighbours_open(g2, i, j) by {
                    if (i, j) != (x as int, y as int) {
                        assert(cell(g1, i, j) == cell(g0, i, j));
                    }
                }
                assert forall|i: int, j: int| in_bounds(g0, i, j) implies
                    (#[trigger] cell(g0, i, j)).cell_content == cell(g2, i, j).cell_content by {
                    assert(cell(g0, i, j).cell_content == cell(g1, i, j).cell_content);
                }
            }
        }
        if game.board[y][x].cell_content == CellContent::Mine {
            set_state(game, x, y, CellState::Opened);
            let ghost g1 = *game;
            proof {
                lemma_counts_after_update(g0, g1, x as int, y as int, cell(g1, x as int, y as int));
            }
            game.opened_count = game.opened_count + 1;
            proof {
                lemma_same_layout_keeps(g0, *game);
            }
            boom(game);
            proof {
                let g2 = *game;
                assert forall|i: int, j: int| in_bounds(g0, i, j) implies
                    #[trigger] cell(g2, i, j) == revealed(g0, i, j) by {
                    assert(cell(g2, i, j) == revealed(g1, i, j));
                    if (i, j) != (x as int, y as int) {
                        assert(cell(g1, i, j) == cell(g0, i, j));
                    }
                }
                assert forall|i: int, j: int|
                    in_bounds(g0, i, j) && !is_opened(cell(g0, i, j)) && is_opened(#[trigger] cell(g2, i, j))
                        && cell(g2, i, j).cell_content == CellContent::Blank implies safe_neighbours_open(g2, i, j) by {
                    assert(cell(g2, i, j) == revealed(g0, i, j));
                }
                lemma_counts_unopened_after_reveal(g0, g2);
            }
        }
    }
}

/// An open cell is counted among the open cells.
proof fn lemma_opened_cell_counted(g: Game, x: int, y: int)
    requires
        rectangular(g),
        in_bounds(g, x, y),
        is_opened(cell(g, x, y)),
    ensures
        count(g, opened_p()) >= 1,
{
    let c = Cell { cell_state: CellState::Unopened, ..cell(g, x, y) };
    assert(g.board@[y]@.len() == board_width(g));
    assert(grid(g)[y][x] == cell(g, x, y));
    lemma_grid_count_update(grid(g), x, y, c, opened_p());
    lemma_grid_count_nonneg(grid(g).update(y, grid(g)[y].update(x, c)), opened_p());
}

proof fn lemma_only_opens_refl(g: Game)
    ensures
        only_opens(g, g),
{
}

/// Showing the mines closes no cell.
proof fn lemma_counts_unopened_after_reveal(g0: Game, g2: Game)
    requires
        rectangular(g0),
        rectangular(g2),
        board_height(g0) == board_height(g2),
        board_width(g0) == board_width(g2),
        forall|i: int, j: int| in_bounds(g0, i, j) ==> #[trigger] cell(g2, i, j) == revealed(g0, i, j),
    ensures
        count(g2, unopened_p()) <= count(g0, unopened_p()),
{
    lemma_open_plus_closed(g0);
    lemma_open_plus_closed(g2);
    lemma_count_monotone(g0, g2);
}

/// More cells open means a larger count of open cells.
proof fn lemma_count_monotone(g0: Game, g2: Game)
    requires
        rectangular(g0),
        rectangular(g2),
        board_height(g0) == board_height(g2),
        board_width(g0) == board_width(g2),
        forall|i: int, j: int| in_bounds(g0, i, j) && is_opened(cell(g0, i, j)) ==> is_opened(#[trigger] cell(g2, i, j)),
    ensures
        count(g2, opened_p()) >= count(g0, opened_p()),
{
    assert forall|y: int| 0 <= y < grid(g0).len() implies (#[trigger] grid(g0)[y]).len() == grid(g2)[y].len() by {
        assert(g0.board@[y]@.len() == board_width(g0));
        assert(g2.board@[y]@.len() == board_width(g2));
    }
    assert forall|y: int, x: int| 0 <= y < grid(g0).len() && 0 <= x < grid(g0)[y].len() && opened_p()(#[trigger] grid(g0)[y][x])
        implies opened_p()(grid(g2)[y][x]) by {
        assert(g0.board@[y]@.len() == board_width(g0));
        assert(g2.board@[y]@.len() == board_width(g2));
        assert(grid(g0)[y][x] == cell(g0, x, y));
        assert(grid(g2)[y][x] == cell(g2, x, y));
        assert(is_opened(cell(g0, x, y)));
        assert(is_opened(cell(g2, x, y)));
    }
    lemma_grid_count_monotone(grid(g0), grid(g2), opened_p());
}

proof fn lemma_row_count_monotone(r1: Seq<Cell>, r2: Seq<Cell>, p: spec_fn(Cell) -> bool)
    requires
        r1.len() == r2.len(),
        forall|i: int| 0 <= i < r1.len() && p(#[trigger] r1[i]) ==> p(r2[i]),
    ensures
        row_count(r1, p) <= row_count(r2, p),
    decreases r1.len(),
{
    if r1.len() > 0 {
        lemma_row_count_monotone(r1.drop_last(), r2.drop_last(), p);
        assert(p(r1[r1.len() - 1]) ==> p(r2[r1.len() - 1]));
    }
}

proof fn lemma_grid_count_monotone(a: Seq<Seq<Cell>>, b: Seq<Seq<Cell>>, p: spec_fn(Cell) -> bool)
    requires
        a.len() == b.len(),
        forall|y: int| 0 <= y < a.len() ==> (#[trigger] a[y]).len() == b[y].len(),
        forall|y: int, x: int| 0 <= y < a.len() && 0 <= x < a[y].len() && p(#[trigger] a[y][x]) ==> p(b[y][x]),
    ensures
        grid_count(a, p) <= grid_count(b, p),
    decreases a.len(),
{
    if a.len() > 0 {
        let n = a.len() - 1;
        assert forall|y: int, x: int| 0 <= y < a.drop_last().len() && 0 <= x < a.drop_last()[y].len() && p(#[trigger] a.drop_last()[y][x])
            implies p(b.drop_last()[y][x]) by {
            assert(a.drop_last()[y] == a[y]);
            assert(b.drop_last()[y] == b[y]);
        }
        lemma_grid_count_monotone(a.drop_last(), b.drop_last(), p);
        assert(a[n].len() == b[n].len());
        assert forall|i: int| 0 <= i < a[n].len() && p(#[trigger] a[n][i]) implies p(b[n][i]) by {
            assert(p(a[n][i]) ==> p(b[n][i]));
        }
        lemma_row_count_monotone(a[n], b[n], p);
    }
}

/// Opens, around the blank cell `(x, y)`, every cell without a mine that is not open yet
/// (taking away its flag first), which spreads further from blank cells.
pub fn flood_fill(game: &mut Game, y: &usize, x: &usize)
    requires
        valid(*old(game)),
        playing(*old(game)),
        old(game).opened_count > 0,
        in_bounds(*old(game), *x as int, *y as int),
    ensures
        valid(*final(game)),
        playing(*final(game)),
        board_height(*final(game)) == board_height(*old(game)),
        board_width(*final(game)) == board_width(*old(game)),
        same_layout(*old(game), *final(game)),
        only_opens(*old(game), *final(game)),
        flood_closed(*old(game), *final(game)),
        safe_neighbours_open(*final(game), *x as int, *y as int),
        count(*final(game), unopened_p()) <= count(*old(game), unopened_p()),
        final(game).opened_count >= old(game).opened_count,
        final(game).mine_count == old(game).mine_count,
    decreases count(*old(game), unopened_p()), 4int,
{
    let ghost g0 = *game;
    proof {
        lemma_sides_fit(g0);
        lemma_only_opens_refl(g0);
    }
    let mut k: usize = 0;
    while k < 9
        invariant
            0 <= k <= 9,
            g0 == *old(game),
            in_bounds(g0, *x as int, *y as int),
            board_width(g0) <= isize::MAX,
            board_height(g0) <= isize::MAX,
            valid(*game),
            playing(*game),
            game.opened_count >= g0.opened_count,
            g0.opened_count > 0,
            board_height(*game) == board_height(g0),
            board_width(*game) == board_width(g0),
            same_layout(g0, *game),
            only_opens(g0, *game),
            flood_closed(g0, *game),
            count(*game, unopened_p()) <= count(g0, unopened_p()),
            game.mine_count == g0.mine_count,
            forall|j: int| 0 <= j < k ==> #[trigger] neighbour_open(*game, *x as int, *y as int, j),
        decreases 9 - k,
    {
        if k != 4 {
            let dx: isize = (k % 3) as isize - 1;
            let dy: isize = (k / 3) as isize - 1;
            let nx = *x as isize + dx;
            let ny = *y as isize + dy;
            if nx >= 0 && ny >= 0 {
                let nx = nx as usize;
                let ny = ny as usize;
                if ny < game.board.len() && nx < game.board[0].len() {
                    if game.board[ny][nx].cell_state != CellState::Opened {
                        if game.board[ny][nx].cell_content != CellContent::Mine {
                            let ghost g1 = *game;
                            proof {
                                lemma_open_plus_closed(g1);
                            }
                            open_neighbour(game, nx, ny);
                            proof {
                                lemma_flood_step(g0, g1, *game, *x as int, *y as int, k as int);
                            }
                        }
                    }
                }
            }
        }
        proof {
            assert(neighbour_open(*game, *x as int, *y as int, k as int));
        }
        k = k + 1;
    }
}

/// Opens the closed cell `(nx, ny)` without a mine, taking its flag away first.
fn open_neighbour(game: &mut Game, nx: usize, ny: usize)
    requires
        valid(*old(game)),
        playing(*old(game)),
        old(game).opened_count > 0,
        in_bounds(*old(game), nx as int, ny as int),
        !is_opened(cell(*old(game), nx as int, ny as int)),
        !is_mine(cell(*old(game), nx as int, ny as int)),
    ensures
        valid(*final(game)),
        playing(*final(game)),
        board_height(*final(game)) == board_height(*old(game)),
        board_width(*final(game)) == board_width(*old(game)),
        same_layout(*old(game), *final(game)),
        only_opens(*old(game), *final(game)),
        flood_closed(*old(game), *final(game)),
        is_opened(cell(*final(game), nx as int, ny as int)),
        count(*final(game), unopened_p()) <= count(*old(game), unopened_p()),
        final(game).opened_count >= old(game).opened_count,
        final(game).mine_count == old(game).mine_count,
    decreases count(*old(game), unopened_p()), 3int,
{
    let ghost g0 = *game;
    if game.board[ny][nx].cell_state == CellState::Flagged {
        flag(game, &ActionKind::Flag(nx, ny));
        proof {
            let c = flagged_cell(cell(g0, nx as int, ny as int), g0.flag_count);
            lemma_cells_from_grid(g0, *game, nx as int, ny as int, c);
            lemma_counts_after_update(g0, *game, nx as int, ny as int, c);
        }
    }
    let ghost g1 = *game;
    proof {
        assert forall|i: int, j: int| in_bounds(g0, i, j) && (i, j) != (nx as int, ny as int) implies
            #[trigger] cell(g1, i, j) == cell(g0, i, j) by {
        }
    }
    open(game, &ActionKind::Open(nx, ny));
    proof {
        let g2 = *game;
        assert forall|i: int, j: int| in_bounds(g0, i, j) implies
            (#[trigger] cell(g2, i, j)).cell_state == cell(g0, i, j).cell_state || is_opened(cell(g2, i, j)) by {
            assert(cell(g2, i, j).cell_state == cell(g1, i, j).cell_state || is_opened(cell(g2, i, j)));
        }
        assert forall|i: int, j: int|
            in_bounds(g0, i, j) && !is_opened(cell(g0, i, j)) && is_opened(#[trigger] cell(g2, i, j))
                && cell(g2, i, j).cell_content == CellContent::Blank implies safe_neighbours_open(g2, i, j) by {
            if (i, j) != (nx as int, ny as int) {
                assert(cell(g1, i, j) == cell(g0, i, j));
            }
        }
        assert forall|i: int, j: int| in_bounds(g0, i, j) implies
            (#[trigger] cell(g0, i, j)).cell_content == cell(g2, i, j).cell_content by {
            assert(cell(g0, i, j).cell_content == cell(g1, i, j).cell_content);
        }
    }
}

/// The cells of a game whose grid is another's with one cell replaced.
proof fn lemma_cells_from_grid(g0: Game, g1: Game, x: int, y: int, c: Cell)
    requires
        rectangular(g0),
        rectangular(g1),
        in_bounds(g0, x, y),
        grid(g1) == with_cell(g0, x, y, c),
    ensures
        board_height(g1) == board_height(g0),
        board_width(g1) == board_width(g0),
        cell(g1, x, y) == c,
        forall|i: int, j: int| in_bounds(g0, i, j) && (i, j) != (x, y) ==> #[trigger] cell(g1, i, j) == cell(g0, i, j),
{
    assert(grid(g1).len() == grid(g0).len());
    assert(board_height(g1) == board_height(g0));
    assert(grid(g1)[0].len() == grid(g0)[0].len());
    assert(g1.board@[y]@.len() == board_width(g1));
    assert(g0.board@[y]@.len() == board_width(g0));
    assert(grid(g1)[y][x] == cell(g1, x, y));
    assert forall|i: int, j: int| in_bounds(g0, i, j) && (i, j) != (x, y) implies #[trigger] cell(g1, i, j) == cell(g0, i, j) by {
        assert(g0.board@[j]@.len() == board_width(g0));
        assert(grid(g1)[j][i] == cell(g1, i, j));
        assert(grid(g0)[j][i] == cell(g0, i, j));
    }
}

proof fn lemma_neighbour_stays_open(g1: Game, g2: Game, x: int, y: int, k: int)
    requires
        neighbour_open(g1, x, y, k),
        keeps_open(g1, g2),
        same_layout(g1, g2),
    ensures
        neighbour_open(g2, x, y, k),
{
    let d = offset(k);
    if in_bounds(g1, x + d.0, y + d.1) {
        assert(cell(g1, x + d.0, y + d.1).cell_content == cell(g2, x + d.0, y + d.1).cell_content);
    }
}

/// One step of the flood: what held from `g0` to `g1` holds from `g0` to `g2`.
proof fn lemma_flood_step(g0: Game, g1: Game, g2: Game, x: int, y: int, k: int)
    requires
        board_height(g1) == board_height(g0),
        board_width(g1) == board_width(g0),
        same_layout(g0, g1),
        only_opens(g0, g1),
        flood_closed(g0, g1),
        forall|j: int| 0 <= j < k ==> #[trigger] neighbour_open(g1, x, y, j),
        board_height(g2) == board_height(g1),
        board_width(g2) == board_width(g1),
        same_layout(g1, g2),
        only_opens(g1, g2),
        flood_closed(g1, g2),
    ensures
        same_layout(g0, g2),
        only_opens(g0, g2),
        flood_closed(g0, g2),
        forall|j: int| 0 <= j < k ==> #[trigger] neighbour_open(g2, x, y, j),
{
    lemma_only_opens_keeps_open(g1, g2);
    lemma_flood_closed_trans(g0, g1, g2);
    assert forall|i: int, j: int| in_bounds(g0, i, j) implies (#[trigger] cell(g0, i, j)).cell_content == cell(g2, i, j).cell_content by {
        assert(cell(g0, i, j).cell_content == cell(g1, i, j).cell_content);
    }
    assert forall|i: int, j: int| in_bounds(g0, i, j) implies
        (#[trigger] cell(g2, i, j)).cell_state == cell(g0, i, j).cell_state || is_opened(cell(g2, i, j)) by {
        assert(cell(g1, i, j).cell_state == cell(g0, i, j).cell_state || is_opened(cell(g1, i, j)));
        assert(cell(g2, i, j).cell_state == cell(g1, i, j).cell_state || is_opened(cell(g2, i, j)));
    }
    assert forall|j: int| 0 <= j < k implies #[trigger] neighbour_open(g2, x, y, j) by {
        lemma_neighbour_stays_open(g1, g2, x, y, j);
    }
}

// ---------------------------------------------------------------------------
// Winning
// ---------------------------------------------------------------------------

pub open spec fn safe_p() -> spec_fn(Cell) -> bool {
    |c: Cell| c.cell_content != CellContent::Mine
}

proof fn lemma_row_complement_gen(row: Seq<Cell>, p: spec_fn(Cell) -> bool, q: spec_fn(Cell) -> bool)
    requires
        forall|c: Cell| #[trigger] q(c) == !p(c),
    ensures
        row_count(row, p) + row_count(row, q) == row.len(),
    decreases row.len(),
{
    if row.len() > 0 {
        lemma_row_complement_gen(row.drop_last(), p, q);
        assert(q(row.last()) == !p(row.last()));
    }
}

proof fn lemma_grid_complement_gen(rows: Seq<Seq<Cell>>, w: int, p: spec_fn(Cell) -> bool, q: spec_fn(Cell) -> bool)
    requires
        forall|y: int| 0 <= y < rows.len() ==> (#[trigger] rows[y]).len() == w,
        forall|c: Cell| #[trigger] q(c) == !p(c),
    ensures
        grid_count(rows, p) + grid_count(rows, q) == rows.len() * w,
    decreases rows.len(),
{
    if rows.len() > 0 {
        lemma_grid_complement_gen(rows.drop_last(), w, p, q);
        lemma_row_complement_gen(rows.last(), p, q);
        assert((rows.len() - 1) * w + w == rows.len() * w) by (nonlinear_arith);
    }
}

proof fn lemma_row_count_sub(row: Seq<Cell>, p: spec_fn(Cell) -> bool, q: spec_fn(Cell) -> bool)
    requires
        forall|i: int| 0 <= i < row.len() && p(#[trigger] row[i]) ==> q(row[i]),
    ensures
        row_count(row, p) <= row_count(row, q),
    decreases row.len(),
{
    if row.len() > 0 {
        assert(p(row[row.len() - 1]) ==> q(row[row.len() - 1]));
        lemma_row_count_sub(row.drop_last(), p, q);
    }
}

proof fn lemma_grid_count_sub(a: Seq<Seq<Cell>>, p: spec_fn(Cell) -> bool, q: spec_fn(Cell) -> bool)
    requires
        forall|y: int, x: int| 0 <= y < a.len() && 0 <= x < a[y].len() && p(#[trigger] a[y][x]) ==> q(a[y][x]),
    ensures
        grid_count(a, p) <= grid_count(a, q),
    decreases a.len(),
{
    if a.len() > 0 {
        let n = a.len() - 1;
        assert forall|y: int, x: int| 0 <= y < a.drop_last().len() && 0 <= x < a.drop_last()[y].len() && p(#[trigger] a.drop_last()[y][x])
            implies q(a.drop_last()[y][x]) by {
            assert(a.drop_last()[y] == a[y]);
        }
        lemma_grid_count_sub(a.drop_last(), p, q);
        assert forall|i: int| 0 <= i < a[n].len() && p(#[trigger] a[n][i]) implies q(a[n][i]) by {
            assert(p(a[n][i]) ==> q(a[n][i]));
        }
        lemma_row_count_sub(a[n], p, q);
    }
}

/// All cells without a mine are open.
pub open spec fn all_safe_open(g: Game) -> bool {
    forall|x: int, y: int| in_bounds(g, x, y) && !is_mine(#[trigger] cell(g, x, y)) ==> is_opened(cell(g, x, y))
}

/// The number of cells without a mine.
pub open spec fn safe_total(g: Game) -> int {
    cells_total(g) - g.mine_count
}

/// While a game runs, the player has opened as many cells as there are cells without a
/// mine exactly when every cell without a mine is open.
pub proof fn lemma_won_iff_all_safe_open(g: Game)
    requires
        valid(g),
        playing(g),
    ensures
        (g.opened_count == safe_total(g)) <==> all_safe_open(g),
{
    let rows = grid(g);
    let w = board_width(g);
    assert forall|y: int| 0 <= y < rows.len() implies (#[trigger] rows[y]).len() == w by {
        assert(g.board@[y]@.len() == w);
    }
    assert forall|c: Cell| #[trigger] safe_p()(c) == !mine_p()(c) by {}
    lemma_grid_complement_gen(rows, w, mine_p(), safe_p());
    assert forall|y: int, x: int| 0 <= y < rows.len() && 0 <= x < rows[y].len() && opened_p()(#[trigger] rows[y][x])
        implies safe_p()(rows[y][x]) by {
        assert(rows[y][x] == cell(g, x, y));
    }
    lemma_grid_count_sub(rows, opened_p(), safe_p());
    // count(opened) <= count(safe) == safe_total
    if all_safe_open(g) {
        assert forall|y: int, x: int| 0 <= y < rows.len() && 0 <= x < rows[y].len() && safe_p()(#[trigger] rows[y][x])
            implies opened_p()(rows[y][x]) by {
            assert(rows[y][x] == cell(g, x, y));
        }
        lemma_grid_count_sub(rows, safe_p(), opened_p());
    }
    if !all_safe_open(g) {
        let (x0, y0) = choose|x: int, y: int| in_bounds(g, x, y) && !is_mine(#[trigger] cell(g, x, y)) && !is_opened(cell(g, x, y));
        let c = Cell { cell_state: CellState::Opened, ..cell(g, x0, y0) };
        let rows2 = rows.update(y0, rows[y0].update(x0, c));
        assert(rows[y0][x0] == cell(g, x0, y0));
        lemma_grid_count_update(rows, x0, y0, c, opened_p());
        lemma_grid_count_update(rows, x0, y0, c, safe_p());
        assert forall|y: int, x: int| 0 <= y < rows2.len() && 0 <= x < rows2[y].len() && opened_p()(#[trigger] rows2[y][x])
            implies safe_p()(rows2[y][x]) by {
            if y == y0 && x == x0 {
            } else {
                assert(rows2[y][x] == rows[y][x]);
                assert(rows[y][x] == cell(g, x, y));
            }
        }
        lemma_grid_count_sub(rows2, opened_p(), safe_p());
    }
}

/// The game is won when it is not lost and the player has opened every cell without a
/// mine (`opened_count` equals cells minus mines); then `game_won` is set.
pub open spec fn wins(g: Game) -> bool {
    !g.game_over && g.opened_count == safe_total(g)
}

fn check_winner(game: &mut Game) -> (r: bool)
    requires
        consistent(*old(game)),
    ensures
        r == wins(*old(game)),
        final(game).game_won == (old(game).game_won || r),
        final(game).board == old(game).board,
        final(game).opened_count == old(game).opened_count,
        final(game).mine_count == old(game).mine_count,
        final(game).flag_count == old(game).flag_count,
        final(game).game_over == old(game).game_over,
{
    if game.game_over {
        return false;
    }
    proof {
        lemma_sides_fit(*game);
    }
    let total_cells = game.board.len() * game.board[0].len();
    let safe_cells = total_cells - game.mine_count;
    if game.opened_count == safe_cells {
        game.game_won = true;
        return true;
    }
    false
}

/// Setting `game_won` keeps a game valid.
proof fn lemma_won_flag_set(g1: Game, g2: Game)
    requires
        valid(g1),
        g2.board == g1.board,
        g2.opened_count == g1.opened_count,
        g2.mine_count == g1.mine_count,
        g2.flag_count == g1.flag_count,
        g2.game_over == g1.game_over,
        g1.game_won ==> g2.game_won,
    ensures
        valid(g2),
        grid(g2) == grid(g1),
        forall|i: int, j: int| #[trigger] cell(g2, i, j) == cell(g1, i, j),
        same_layout(g1, g2),
{
    assert(grid(g2) == grid(g1));
    lemma_same_layout_keeps(g1, g2);
}

/// Showing the mines after a won opening keeps what the opening did.
proof fn lemma_reveal_after_open(g0: Game, g2: Game, g3: Game)
    requires
        rectangular(g2),
        board_height(g2) == board_height(g0),
        board_width(g2) == board_width(g0),
        only_opens(g0, g2),
        flood_closed(g0, g2),
        forall|i: int, j: int| in_bounds(g2, i, j) ==> #[trigger] cell(g3, i, j) == revealed(g2, i, j),
        board_height(g3) == board_height(g2),
        board_width(g3) == board_width(g2),
    ensures
        only_opens(g0, g3),
        flood_closed(g0, g3),
        same_layout(g2, g3),
        keeps_open(g2, g3),
{
    assert forall|i: int, j: int| in_bounds(g2, i, j) implies (#[trigger] cell(g2, i, j)).cell_content == cell(g3, i, j).cell_content by {
        assert(cell(g3, i, j) == revealed(g2, i, j));
    }
    assert forall|i: int, j: int| in_bounds(g2, i, j) && is_opened(cell(g2, i, j)) implies is_opened(#[trigger] cell(g3, i, j)) by {
        assert(cell(g3, i, j) == revealed(g2, i, j));
    }
    assert forall|i: int, j: int| in_bounds(g0, i, j) implies
        (#[trigger] cell(g3, i, j)).cell_state == cell(g0, i, j).cell_state || is_opened(cell(g3, i, j)) by {
        assert(cell(g3, i, j) == revealed(g2, i, j));
        assert(cell(g2, i, j).cell_state == cell(g0, i, j).cell_state || is_opened(cell(g2, i, j)));
    }
    assert forall|i: int, j: int|
        in_bounds(g0, i, j) && !is_opened(cell(g0, i, j)) && is_opened(#[trigger] cell(g3, i, j))
            && cell(g3, i, j).cell_content == CellContent::Blank implies safe_neighbours_open(g3, i, j) by {
        assert(cell(g3, i, j) == revealed(g2, i, j));
        lemma_neighbours_stay_open(g2, g3, i, j);
    }
}

/// The board of a new game: `rows` rows of `cols` closed blank cells.
fn blank_board(rows: usize, cols: usize) -> (b: Vec<Vec<Cell>>)
    ensures
        b@.len() == rows,
        forall|y: int| 0 <= y < rows ==> (#[trigger] b@[y])@.len() == cols,
        forall|y: int, x: int| 0 <= y < rows && 0 <= x < cols ==>
            #[trigger] b@[y]@[x] == (Cell { cell_state: CellState::Unopened, cell_content: CellContent::Blank }),
{
    let default_cell = Cell { cell_content: CellContent::Blank, cell_state: CellState::Unopened };
    let mut b: Vec<Vec<Cell>> = Vec::new();
    let mut y: usize = 0;
    while y < rows
        invariant
            0 <= y <= rows,
            b@.len() == y,
            default_cell == (Cell { cell_state: CellState::Unopened, cell_content: CellContent::Blank }),
            forall|j: int| 0 <= j < y ==> (#[trigger] b@[j])@.len() == cols,
            forall|j: int, x: int| 0 <= j < y && 0 <= x < cols ==> #[trigger] b@[j]@[x] == default_cell,
        decreases rows - y,
    {
        let mut row: Vec<Cell> = Vec::new();
        let mut x: usize = 0;
        while x < cols
            invariant
                0 <= x <= cols,
                row@.len() == x,
                forall|i: int| 0 <= i < x ==> #[trigger] row@[i] == default_cell,
            decreases cols - x,
        {
            row.push(default_cell);
            x = x + 1;
        }
        b.push(row);
        y = y + 1;
    }
    b
}

/// A grid none of whose cells has property `p` counts none.
proof fn lemma_count_none(g: Game, p: spec_fn(Cell) -> bool)
    requires
        rectangular(g),
        forall|x: int, y: int| in_bounds(g, x, y) ==> !p(#[trigger] cell(g, x, y)),
    ensures
        count(g, p) == 0,
{
    let rows = grid(g);
    assert forall|y: int, x: int| 0 <= y < rows.len() && 0 <= x < rows[y].len() && p(#[trigger] rows[y][x])
        implies mine_p()(rows[y][x]) && !mine_p()(rows[y][x]) by {
        assert(g.board@[y]@.len() == board_width(g));
        assert(rows[y][x] == cell(g, x, y));
    }
    let none = |c: Cell| false;
    lemma_grid_count_sub(rows, p, none);
    lemma_grid_count_none(rows);
    lemma_grid_count_nonneg(rows, p);
}

proof fn lemma_grid_count_none(a: Seq<Seq<Cell>>)
    ensures
        grid_count(a, |c: Cell| false) == 0,
    decreases a.len(),
{
    if a.len() > 0 {
        lemma_grid_count_none(a.drop_last());
        lemma_row_count_none(a.last());
    }
}

proof fn lemma_row_count_none(r: Seq<Cell>)
    ensures
        row_count(r, |c: Cell| false) == 0,
    decreases r.len(),
{
    if r.len() > 0 {
        lemma_row_count_none(r.drop_last());
    }
}

/// Rows, columns and mines of each difficulty.
pub open spec fn layout_of(d: Difficulty) -> (int, int, int) {
    match d {
        Difficulty::Easy => (9, 9, 10),
        Difficulty::Medium => (16, 16, 40),
        Difficulty::Hard => (22, 22, 80),
        Difficulty::Expert => (16, 30, 99),
    }
}

/// An allowed open action, then the check for a win (showing all mines on a win).
fn open_and_check(game: &mut Game, action_kind: &ActionKind)
    requires
        valid(*old(game)),
        action_allowed(*old(game), *action_kind),
        action_kind is Open,
    ensures
        valid(*final(game)),
        ({
            let (x, y) = target(*action_kind);
            let hit = mine_at(*old(game), x, y) && old(game).opened_count > 0;
            &&& board_height(*final(game)) == board_height(*old(game))
            &&& board_width(*final(game)) == board_width(*old(game))
            &&& final(game).mine_count == old(game).mine_count
            &&& final(game).game_won == wins(*final(game))
            &&& final(game).game_won ==> forall|i: int, j: int| in_bounds(*final(game), i, j) && is_mine(#[trigger] cell(*final(game), i, j))
                ==> is_opened(cell(*final(game), i, j))
            &&& only_opens(*old(game), *final(game))
            &&& is_opened(cell(*final(game), x, y))
            &&& final(game).game_over == hit
            &&& old(game).opened_count > 0 ==> same_layout(*old(game), *final(game))
            &&& flood_closed(*old(game), *final(game))
        }),
{
    let ghost g0 = *game;
    open(game, action_kind);
    let ghost g1 = *game;
    check_winner(game);
    let ghost g2 = *game;
    proof {
        lemma_won_flag_set(g1, g2);
        assert forall|i: int, j: int| in_bounds(g1, i, j) && is_opened(cell(g1, i, j)) implies is_opened(#[trigger] cell(g2, i, j)) by {
        }
        assert forall|i: int, j: int|
            in_bounds(g0, i, j) && !is_opened(cell(g0, i, j)) && is_opened(#[trigger] cell(g2, i, j))
                && cell(g2, i, j).cell_content == CellContent::Blank implies safe_neighbours_open(g2, i, j) by {
            assert(cell(g2, i, j) == cell(g1, i, j));
            lemma_neighbours_stay_open(g1, g2, i, j);
        }
    }
    if game.game_won {
        reveal_mines(game);
        proof {
            lemma_reveal_after_open(g0, g2, *game);
            if old(game).opened_count > 0 {
                assert forall|i: int, j: int| in_bounds(g0, i, j) implies
                    (#[trigger] cell(g0, i, j)).cell_content == cell(*game, i, j).cell_content by {
                    assert(cell(g0, i, j).cell_content == cell(g2, i, j).cell_content);
                }
            }
            assert forall|i: int, j: int| in_bounds(*game, i, j) && is_mine(#[trigger] cell(*game, i, j)) implies
                is_opened(cell(*game, i, j)) by {
                assert(cell(*game, i, j) == revealed(g2, i, j));
            }
        }
    }
}

/// An allowed flag action, then the check for a win (showing all mines on a win).
fn flag_and_check(game: &mut Game, action_kind: &ActionKind)
    requires
        valid(*old(game)),
        action_allowed(*old(game), *action_kind),
        action_kind is Flag,
    ensures
        valid(*final(game)),
        ({
            let (x, y) = target(*action_kind);
            &&& board_height(*final(game)) == board_height(*old(game))
            &&& board_width(*final(game)) == board_width(*old(game))
            &&& final(game).mine_count == old(game).mine_count
            &&& final(game).game_won == wins(*final(game))
            &&& final(game).game_won ==> forall|i: int, j: int| in_bounds(*final(game), i, j) && is_mine(#[trigger] cell(*final(game), i, j))
                ==> is_opened(cell(*final(game), i, j))
            &&& same_layout(*old(game), *final(game))
            &&& final(game).game_over == old(game).game_over
            &&& final(game).flag_count == flags_after(cell(*old(game), x, y), old(game).flag_count)
            &&& !final(game).game_won ==> cell(*final(game), x, y) == flagged_cell(cell(*old(game), x, y), old(game).flag_count)
            &&& forall|i: int, j: int| in_bounds(*old(game), i, j) && (i, j) != (x, y)
                && (!is_mine(cell(*old(game), i, j)) || !final(game).game_won) ==>
                #[trigger] cell(*final(game), i, j) == cell(*old(game), i, j)
        }),
{
    let ghost g0 = *game;
    flag(game, action_kind);
    let ghost g1 = *game;
    proof {
        let (x, y) = target(*action_kind);
        lemma_cells_from_grid(g0, g1, x, y, flagged_cell(cell(g0, x, y), g0.flag_count));
    }
    check_winner(game);
    let ghost g2 = *game;
    proof {
        lemma_won_flag_set(g1, g2);
    }
    if game.game_won {
        reveal_mines(game);
        proof {
            assert forall|i: int, j: int| in_bounds(g0, i, j) implies
                (#[trigger] cell(g0, i, j)).cell_content == cell(*game, i, j).cell_content by {
                assert(cell(g0, i, j).cell_content == cell(g2, i, j).cell_content);
                assert(cell(*game, i, j) == revealed(g2, i, j));
            }
            assert forall|i: int, j: int| in_bounds(*game, i, j) && is_mine(#[trigger] cell(*game, i, j)) implies
                is_opened(cell(*game, i, j)) by {
                assert(cell(*game, i, j) == revealed(g2, i, j));
            }
            let (x, y) = target(*action_kind);
            assert forall|i: int, j: int| in_bounds(g0, i, j) && (i, j) != (x, y) && !is_mine(cell(g0, i, j)) implies
                #[trigger] cell(*game, i, j) == cell(g0, i, j) by {
                assert(cell(*game, i, j) == revealed(g2, i, j));
                assert(cell(g2, i, j) == cell(g1, i, j));
            }
        }
    }
}

/// `g1` is what an action leaves of `g0`: a refused action changes nothing; an allowed
/// one opens or flags as `apply_action` says, then checks for a win.
pub open spec fn applied(g0: Game, a: ActionKind, g1: Game) -> bool {
    let (x, y) = target(a);
    &&& valid(g1)
    &&& !action_allowed(g0, a) ==> g1 == g0
    &&& action_allowed(g0, a) ==> {
        &&& board_height(g1) == board_height(g0)
        &&& board_width(g1) == board_width(g0)
        &&& g1.mine_count == g0.mine_count
        &&& g1.game_won == wins(g1)
        &&& g1.game_won ==> forall|i: int, j: int| in_bounds(g1, i, j) && is_mine(#[trigger] cell(g1, i, j))
            ==> is_opened(cell(g1, i, j))
    }
    &&& action_allowed(g0, a) && a is Open ==> {
        let hit = mine_at(g0, x, y) && g0.opened_count > 0;
        &&& only_opens(g0, g1)
        &&& is_opened(cell(g1, x, y))
        &&& g1.game_over == hit
        &&& g0.opened_count > 0 ==> same_layout(g0, g1)
        &&& flood_closed(g0, g1)
    }
    &&& action_allowed(g0, a) && a is Flag ==> {
        &&& same_layout(g0, g1)
        &&& g1.game_over == g0.game_over
        &&& g1.flag_count == flags_after(cell(g0, x, y), g0.flag_count)
        &&& !g1.game_won ==> cell(g1, x, y) == flagged_cell(cell(g0, x, y), g0.flag_count)
        &&& forall|i: int, j: int| in_bounds(g0, i, j) && (i, j) != (x, y)
            && (!is_mine(cell(g0, i, j)) || !g1.game_won) ==>
            #[trigger] cell(g1, i, j) == cell(g0, i, j)
    }
}

/// The rules of a Minesweeper game: a new game of a difficulty, the player's actions,
/// and the check for a win.
pub trait Minesweeper: Sized {
    spec fn well_formed(&self) -> bool;

    fn new_game(difficulty: Difficulty) -> (r: Self)
        ensures
            r.well_formed();

    fn apply_action(&mut self, action_kind: ActionKind) -> (r: Result<(), &'static str>)
        requires
            old(self).well_formed(),
        ensures
            final(self).well_formed();

    fn winner(&mut self) -> (r: bool)
        requires
            old(self).well_formed(),
        ensures
            final(self).well_formed();
}

impl Minesweeper for Game {
    open spec fn well_formed(&self) -> bool {
        valid(*self)
    }

    /// A game of the given difficulty: its board with all cells closed, its number of
    /// mines placed on distinct cells drawn at random (each set of cells equally
    /// likely), the numbers written, as many flags as mines.
    fn new_game(difficulty: Difficulty) -> (r: Self)
        ensures
            valid(r),
            playing(r),
            board_height(r) == layout_of(difficulty).0,
            board_width(r) == layout_of(difficulty).1,
            r.mine_count == layout_of(difficulty).2,
            r.flag_count == r.mine_count,
            r.opened_count == 0,
            forall|x: int, y: int| in_bounds(r, x, y) ==> (#[trigger] cell(r, x, y)).cell_state == CellState::Unopened,
    {
        let (rows, cols, mine_count): (usize, usize, usize) = match difficulty {
            Difficulty::Easy => (9, 9, 10),
            Difficulty::Medium => (16, 16, 40),
            Difficulty::Hard => (22, 22, 80),
            Difficulty::Expert => (16, 30, 99),
        };
        let board = blank_board(rows, cols);
        let mut game = Game {
            board: board,
            opened_count: 0,
            mine_count: 0,
            flag_count: 0,
            game_over: false,
            game_won: false,
        };
        proof {
            assert(game.board@[0]@.len() == cols);
            assert(rectangular(game));
            lemma_count_none(game, mine_p());
            lemma_count_none(game, opened_p());
            lemma_count_none(game, flagged_p());
        }
        let ghost cells = rows * cols;
        let mut placed: usize = 0;
        while placed < mine_count
            invariant
                0 <= placed <= mine_count,
                mine_count == layout_of(difficulty).2,
                rows == layout_of(difficulty).0,
                cols == layout_of(difficulty).1,
                cells == rows * cols,
                mine_count < cells,
                rectangular(game),
                board_height(game) == rows,
                board_width(game) == cols,
                count(game, mine_p()) == placed,
                count(game, opened_p()) == 0,
                count(game, flagged_p()) == 0,
                forall|x: int, y: int| in_bounds(game, x, y) ==> (#[trigger] cell(game, x, y)).cell_state == CellState::Unopened,
                game.opened_count == 0,
                game.mine_count == 0,
                game.flag_count == 0,
                !game.game_over,
                !game.game_won,
            decreases mine_count - placed,
        {
            proof {
                lemma_free_cells_len(game);
            }
            let free = rows * cols - placed;
            let k = random_below(free);
            let (x, y) = nth_cell_without_mine(&game, k);
            let ghost g0 = game;
            set_content(&mut game, x, y, CellContent::Mine);
            proof {
                lemma_counts_after_update(g0, game, x as int, y as int, cell(game, x as int, y as int));
            }
            placed = placed + 1;
        }
        let ghost gl = game;
        game.mine_count = mine_count;
        game.flag_count = mine_count;
        let ghost g1 = game;
        proof {
            assert forall|x: int, y: int| in_bounds(g1, x, y) implies (#[trigger] cell(g1, x, y)).cell_state == CellState::Unopened by {
                assert(cell(g1, x, y) == cell(gl, x, y));
            }
            assert(grid(g1) == grid(gl));
        }
        set_blanks_and_numbers(&mut game);
        proof {
            let g2 = game;
            assert forall|x: int, y: int| in_bounds(g1, x, y) implies
                mine_p()(#[trigger] cell(g1, x, y)) == mine_p()(cell(g2, x, y)) by {
                assert(cell(g2, x, y) == renumbered(g1, x, y));
            }
            assert forall|x: int, y: int| in_bounds(g1, x, y) implies
                opened_p()(#[trigger] cell(g1, x, y)) == opened_p()(cell(g2, x, y)) by {
                assert(cell(g2, x, y) == renumbered(g1, x, y));
            }
            assert forall|x: int, y: int| in_bounds(g1, x, y) implies
                flagged_p()(#[trigger] cell(g1, x, y)) == flagged_p()(cell(g2, x, y)) by {
                assert(cell(g2, x, y) == renumbered(g1, x, y));
            }
            lemma_count_same(g1, g2, mine_p());
            lemma_count_same(g1, g2, opened_p());
            lemma_count_same(g1, g2, flagged_p());
            assert forall|x: int, y: int| in_bounds(g2, x, y) implies (#[trigger] cell(g2, x, y)).cell_state == CellState::Unopened by {
                assert(cell(g2, x, y) == renumbered(g1, x, y));
            }
        }
        game
    }

    /// Refuses an action that is not allowed (`Err("Action not Allowed")`, the game
    /// unchanged); otherwise opens or flags the cell, then checks for a win and, when
    /// the game is won, shows all mines.
    fn apply_action(&mut self, action_kind: ActionKind) -> (r: Result<(), &'static str>)
        ensures
            valid(*final(self)),
            applied(*old(self), action_kind, *final(self)),
            r is Err <==> !action_allowed(*old(self), action_kind),
            r matches Err(e) ==> e@ == "Action not Allowed"@ && *final(self) == *old(self),
            r is Ok ==> {
                let (x, y) = target(action_kind);
                &&& board_height(*final(self)) == board_height(*old(self))
                &&& board_width(*final(self)) == board_width(*old(self))
                &&& final(self).mine_count == old(self).mine_count
                &&& final(self).game_won == wins(*final(self))
                &&& final(self).game_won ==> forall|i: int, j: int| in_bounds(*final(self), i, j) && is_mine(#[trigger] cell(*final(self), i, j))
                    ==> is_opened(cell(*final(self), i, j))
            },
            r is Ok && action_kind is Open ==> {
                let (x, y) = target(action_kind);
                let hit = mine_at(*old(self), x, y) && old(self).opened_count > 0;
                &&& only_opens(*old(self), *final(self))
                &&& is_opened(cell(*final(self), x, y))
                &&& final(self).game_over == hit
                &&& old(self).opened_count > 0 ==> same_layout(*old(self), *final(self))
                &&& flood_closed(*old(self), *final(self))
            },
            r is Ok && action_kind is Flag ==> {
                let (x, y) = target(action_kind);
                &&& same_layout(*old(self), *final(self))
                &&& final(self).game_over == old(self).game_over
                &&& final(self).flag_count == flags_after(cell(*old(self), x, y), old(self).flag_count)
                &&& !final(self).game_won ==> cell(*final(self), x, y) == flagged_cell(cell(*old(self), x, y), old(self).flag_count)
                &&& forall|i: int, j: int| in_bounds(*old(self), i, j) && (i, j) != (x, y)
                    && (!is_mine(cell(*old(self), i, j)) || !final(self).game_won) ==>
                    #[trigger] cell(*final(self), i, j) == cell(*old(self), i, j)
            },
    {
        if !is_action_allowed(self, &action_kind) {
            return Err("Action not Allowed");
        }
        match action_kind {
            ActionKind::Open(_, _) => open_and_check(self, &action_kind),
            ActionKind::Flag(_, _) => flag_and_check(self, &action_kind),
        }
        Ok(())
    }

    /// Checks for a win: sets `game_won` and returns true when the game is not lost and
    /// every cell without a mine has been opened.
    fn winner(&mut self) -> (r: bool)
        ensures
            r == wins(*old(self)),
            final(self).game_won == (old(self).game_won || r),
            final(self).board == old(self).board,
            final(self).opened_count == old(self).opened_count,
            final(self).mine_count == old(self).mine_count,
            final(self).flag_count == old(self).flag_count,
            final(self).game_over == old(self).game_over,
            valid(*final(self)),
    {
        let ghost g0 = *self;
        let r = check_winner(self);
        proof {
            lemma_won_flag_set(g0, *self);
        }
        r
    }
}

/// Flagging a closed cell twice (while a flag is left) gives the cell and the flags
/// left back; so does flagging a flagged cell twice.
pub proof fn lemma_flag_twice(c: Cell, flags_left: usize)
    requires
        c.cell_state != CellState::Opened,
        c.cell_state == CellState::Unopened ==> flags_left > 0,
        flags_left < usize::MAX,
    ensures
        flagged_cell(flagged_cell(c, flags_left), flags_after(c, flags_left) as usize) == c,
        flags_after(flagged_cell(c, flags_left), flags_after(c, flags_left) as usize) == flags_left,
{
}

/// Every game that `new_game` or an action leaves behind is valid; in particular no
/// number on the board is wrong: a cell without a mine shows how many mines are around it.
pub proof fn lemma_valid_numbers(g: Game, x: int, y: int)
    requires
        valid(g),
        in_bounds(g, x, y),
        !is_mine(cell(g, x, y)),
    ensures
        cell(g, x, y).cell_content == shown_content(mines_around(g, x, y)),
        0 <= mines_around(g, x, y) <= 8,
{
    lemma_mines_around_bounds(g, x, y, 9);
}

} // verus!
