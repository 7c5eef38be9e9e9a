use vstd::prelude::*;
use vstd::relations::*;
use crate::go::{
    Board, BoardView, Game, Stone, Point, view_at, on_board, cell_index, point_of, in_group, group_set,
    liberty_set, lemma_cell_index, lemma_cell_index_injective, lemma_point_of, neighbor_seq, opponent,
    lemma_neighbor_seq, empty_points_upto,
};

verus! {

/// No stone before grid position `k` (in row-major order) belongs to the group of the
/// stone on it: `k` is where a scan of the board first meets that group.
pub open spec fn first_of_group(b: BoardView, k: int) -> bool {
    forall|j: int| 0 <= j < k ==> !#[trigger] in_group(b, point_of(b.0, k), point_of(b.0, j))
}

/// The one liberty of a group that has exactly one.
pub open spec fn sole_liberty(b: BoardView, p: Point) -> Point {
    liberty_set(b, p).choose()
}

/// Scanning the first `k` grid positions row by row, the sole liberty of each group of
/// colour `c` that has only one, once per group, in the order the groups are met.
pub open spec fn atari_upto(b: BoardView, c: Stone, k: int) -> Seq<Point>
    decreases k,
{
    if k <= 0 {
        Seq::empty()
    } else {
        let p = point_of(b.0, k - 1);
        let rest = atari_upto(b, c, k - 1);
        if view_at(b, p) == Some(c) && first_of_group(b, k - 1) && liberty_set(b, p).len() == 1 {
            rest.push(sole_liberty(b, p))
        } else {
            rest
        }
    }
}

/// The points that would take the last liberty of a group of colour `c`.
pub open spec fn atari_points(b: BoardView, c: Stone) -> Seq<Point> {
    atari_upto(b, c, b.1.len() as int)
}

/// Whether a stone of the group of the stone on `(x, y)` lies before grid position `k`.
fn group_starts_before(board: &Board, x: usize, y: usize, k: usize) -> (r: bool)
    requires
        board.wf(),
        on_board(board.size, (x, y)),
        k == cell_index(board.size, (x, y)),
    ensures
        r == !first_of_group(board@, k as int),
{
    let group = board.get_group(x, y);
    let ghost b = board@;
    let ghost size = board.size;
    proof {
        lemma_cell_index(size, (x, y));
        lemma_point_of(size, k as int);
        if point_of(size, k as int) != (x, y) {
            lemma_cell_index_injective(size, point_of(size, k as int), (x, y));
        }
    }
    let mut i: usize = 0;
    while i < group.len()
        invariant
            board.wf(),
            b == board@,
            size == board.size,
            0 <= i <= group@.len(),
            k < size * size,
            point_of(size, k as int) == (x, y),
            group@.to_set() == group_set(b, (x, y)),
            forall|j: int| 0 <= j < group@.len() ==> on_board(size, #[trigger] group@[j]),
            forall|j: int| 0 <= j < i ==> cell_index(size, #[trigger] group@[j]) >= k,
        decreases group@.len() - i,
    {
        let (gx, gy) = group[i];
        proof {
            lemma_cell_index(size, (gx, gy));
        }
        if board.index(gx, gy) < k {
            proof {
                let j = cell_index(size, (gx, gy));
                lemma_point_of(size, j);
                if point_of(size, j) != (gx, gy) {
                    lemma_cell_index_injective(size, point_of(size, j), (gx, gy));
                }
                assert(group@.to_set().contains(group@[i as int]));
                assert(in_group(b, point_of(size, k as int), point_of(size, j)));
            }
            return true;
        }
        i = i + 1;
    }
    proof {
        assert forall|j: int| 0 <= j < k implies !#[trigger] in_group(b, point_of(b.0, k as int), point_of(b.0, j)) by {
            if in_group(b, point_of(b.0, k as int), point_of(b.0, j)) {
                let q = point_of(size, j);
                assert(group_set(b, (x, y)).contains(q));
                assert(group@.to_set().contains(q));
                let m = choose|m: int| 0 <= m < group@.len() && group@[m] == q;
                lemma_point_of(size, j);
                assert(cell_index(size, group@[m]) >= k);
            }
        }
    }
    false
}

/// The points on which a stone takes the last liberty of a group of colour
/// `target_color`: one per such group, in the order a row-by-row scan meets the groups.
pub fn get_fast_atari_moves(game: &Game, target_color: Stone) -> (r: Vec<Point>)
    requires
        game.board.wf(),
    ensures
        r@ == atari_points(game.board@, target_color),
{
    let board = &game.board;
    let size = board.size;
    let ghost b = board@;
    let mut moves: Vec<Point> = Vec::new();
    let mut y: usize = 0;
    while y < size
        invariant
            board.wf(),
            b == board@,
            size == board.size,
            0 <= y <= size,
            moves@ == atari_upto(b, target_color, y * size),
        decreases size - y,
    {
        let mut x: usize = 0;
        while x < size
            invariant
                board.wf(),
                b == board@,
                size == board.size,
                0 <= y < size,
                0 <= x <= size,
                moves@ == atari_upto(b, target_color, y * size + x),
            decreases size - x,
        {
            let ghost k = y * size + x;
            proof {
                lemma_cell_index(size, (x, y));
                lemma_point_of(size, k);
                if point_of(size, k) != (x, y) {
                    lemma_cell_index_injective(size, point_of(size, k), (x, y));
                }
            }
            let idx = board.index(x, y);
            let here = board.get(x, y);
            let is_target = match here {
                Some(s) => s == target_color,
                None => false,
            };
            if is_target {
                if !group_starts_before(board, x, y, idx) {
                    let libs = board.get_liberties(x, y);
                    if libs.len() == 1 {
                        proof {
                            assert(libs@.to_set() =~= set![libs@[0]]);
                            assert(liberty_set(b, (x, y)) == set![libs@[0]]);
                            assert(set![libs@[0]].contains(libs@[0]));
                            assert(set![libs@[0]].contains(set![libs@[0]].choose()));
                        }
                        moves.push(libs[0]);
                    }
                }
            }
            x = x + 1;
        }
        proof {
            assert(y * size + size == (y + 1) * size) by (nonlinear_arith);
        }
        y = y + 1;
    }
    moves
}

/// `moves` followed by the points of `extra` it does not hold yet, each once.
pub open spec fn add_new(moves: Seq<Point>, extra: Seq<Point>) -> Seq<Point>
    decreases extra.len(),
{
    if extra.len() == 0 {
        moves
    } else {
        let m = add_new(moves, extra.drop_last());
        if m.contains(extra.last()) { m } else { m.push(extra.last()) }
    }
}

/// First the moves that take a group of the opponent, then those that save one of the
/// player's own groups.
pub open spec fn urgent_moves(g: Game) -> Seq<Point> {
    add_new(
        add_new(Seq::empty(), atari_points(g.board@, opponent(g.current_turn))),
        atari_points(g.board@, g.current_turn),
    )
}

/// The points tried first in an opening.
pub open spec fn star_points() -> Seq<Point> {
    seq![(2, 2), (6, 2), (2, 6), (6, 6), (4, 4), (3, 3), (15, 3), (3, 15), (15, 15)]
}

/// `moves` with each of the first `k` star points that lies on the board, is free and
/// is new.
pub open spec fn add_stars(b: BoardView, moves: Seq<Point>, k: int) -> Seq<Point>
    decreases k,
{
    if k <= 0 {
        moves
    } else {
        let m = add_stars(b, moves, k - 1);
        let p = star_points()[k - 1];
        if on_board(b.0, p) && !m.contains(p) && view_at(b, p) is None { m.push(p) } else { m }
    }
}

/// The stones among the first `n` grid positions.
pub open spec fn occupied_upto(grid: Seq<Option<Stone>>, n: int) -> int
    decreases n,
{
    if n <= 0 {
        0
    } else {
        occupied_upto(grid, n - 1) + if grid[n - 1] is Some { 1int } else { 0 }
    }
}

/// The worth of the neighbours `nbrs` for a stone of `mover`: 50 for each of the
/// opponent's stones, 20 for each of the mover's own.
pub open spec fn neighbor_score(b: BoardView, nbrs: Seq<Point>, mover: Stone) -> int
    decreases nbrs.len(),
{
    if nbrs.len() == 0 {
        0
    } else {
        neighbor_score(b, nbrs.drop_last(), mover) + match view_at(b, nbrs.last()) {
            Some(s) => if s == opponent(mover) { 50int } else { 20int },
            None => 0int,
        }
    }
}

/// `p` lies at most two steps (counted along the lines) from the last move.
pub open spec fn near_last(p: Point, last: Option<Point>) -> bool {
    match last {
        Some(l) => {
            let dx = if p.0 >= l.0 { p.0 - l.0 } else { l.0 - p.0 };
            let dy = if p.1 >= l.1 { p.1 - l.1 } else { l.1 - p.1 };
            dx + dy <= 2
        },
        None => false,
    }
}

/// How promising a stone of the player to move on `p` looks.
pub open spec fn point_score(g: Game, p: Point) -> int {
    neighbor_score(g.board@, neighbor_seq(g.board.size, p), g.current_turn) + if near_last(p, g.last_move) {
        30int
    } else {
        0
    }
}

/// The points of `pts` not among `moves` with a positive score, each with its score.
pub open spec fn candidates(g: Game, moves: Seq<Point>, pts: Seq<Point>) -> Seq<(Point, u32)>
    decreases pts.len(),
{
    if pts.len() == 0 {
        Seq::empty()
    } else {
        let rest = candidates(g, moves, pts.drop_last());
        let p = pts.last();
        if !moves.contains(p) && point_score(g, p) > 0 {
            rest.push((p, point_score(g, p) as u32))
        } else {
            rest
        }
    }
}

/// Higher scores first; among equal scores, row by row as the board is scanned.
pub open spec fn candidate_leq() -> spec_fn((Point, u32), (Point, u32)) -> bool {
    |a: (Point, u32), b: (Point, u32)|
        a.1 > b.1 || (a.1 == b.1 && (a.0.1 < b.0.1 || (a.0.1 == b.0.1 && a.0.0 <= b.0.0)))
}

pub proof fn lemma_candidate_leq_total()
    ensures
        total_ordering(candidate_leq()),
{
}

/// The empty points of the game's board, row by row.
pub open spec fn empty_points(g: Game) -> Seq<Point> {
    empty_points_upto(g.board@, g.board.size * g.board.size)
}

/// The twelve best candidates (fewer if there are fewer).
pub open spec fn best_candidates(g: Game, moves: Seq<Point>) -> Seq<Point> {
    let c = candidates(g, moves, empty_points(g)).sort_by(candidate_leq());
    c.take(if c.len() < 12 { c.len() as int } else { 12 }).map_values(|e: (Point, u32)| e.0)
}

/// The moves worth trying in a position: the urgent ones; in an opening (fewer than
/// eight stones) the star points; else the best-scoring points near stones and the
/// last move; and when nothing qualifies, the first five empty points.
pub open spec fn sensible_moves(g: Game) -> Seq<Point> {
    let urgent = urgent_moves(g);
    let opening = add_stars(g.board@, urgent, 9);
    let few = occupied_upto(g.board@.1, g.board@.1.len() as int) < 8;
    if few && opening.len() > 0 {
        opening
    } else {
        let base = if few { opening } else { urgent };
        let r = base + best_candidates(g, base);
        if r.len() == 0 {
            let e = empty_points(g);
            e.take(if e.len() < 5 { e.len() as int } else { 5 })
        } else {
            r
        }
    }
}

fn contains_point(v: &Vec<Point>, p: Point) -> (r: bool)
    ensures
        r == v@.contains(p),
{
    let mut i: usize = 0;
    while i < v.len()
        invariant
            0 <= i <= v@.len(),
            forall|j: int| 0 <= j < i ==> v@[j] != p,
        decreases v@.len() - i,
    {
        let q = v[i];
        if q.0 == p.0 && q.1 == p.1 {
            assert(v@[i as int] == p);
            return true;
        }
        i = i + 1;
    }
    false
}

/// Appends the points of `extra` that `moves` does not hold yet.
fn push_new(moves: &mut Vec<Point>, extra: &Vec<Point>)
    ensures
        final(moves)@ == add_new(old(moves)@, extra@),
{
    let ghost start = moves@;
    let mut i: usize = 0;
    while i < extra.len()
        invariant
            0 <= i <= extra@.len(),
            moves@ == add_new(start, extra@.take(i as int)),
        decreases extra@.len() - i,
    {
        let m = extra[i];
        proof {
            assert(extra@.take(i + 1).drop_last() =~= extra@.take(i as int));
        }
        if !contains_point(moves, m) {
            moves.push(m);
        }
        i = i + 1;
    }
    assert(extra@.take(extra@.len() as int) =~= extra@);
}

fn count_occupied(grid: &Vec<Option<Stone>>) -> (r: usize)
    ensures
        r == occupied_upto(grid@, grid@.len() as int),
{
    let mut n: usize = 0;
    let mut i: usize = 0;
    while i < grid.len()
        invariant
            0 <= i <= grid@.len(),
            n == occupied_upto(grid@, i as int),
            n <= i,
        decreases grid@.len() - i,
    {
        if grid[i].is_some() {
            n = n + 1;
        }
        i = i + 1;
    }
    n
}

fn cand_le(a: (Point, u32), b: (Point, u32)) -> (r: bool)
    ensures
        r == candidate_leq()(a, b),
{
    a.1 > b.1 || (a.1 == b.1 && (a.0.1 < b.0.1 || (a.0.1 == b.0.1 && a.0.0 <= b.0.0)))
}

/// Sorts the candidates: higher scores first, equal scores in board order.
fn sort_candidates(v: &mut Vec<(Point, u32)>)
    ensures
        final(v)@ == old(v)@.sort_by(candidate_leq()),
{
    broadcast use vstd::seq_lib::group_to_multiset_ensures;
    broadcast use vstd::multiset::group_multiset_axioms;

    let ghost leq = candidate_leq();
    proof {
        lemma_candidate_leq_total();
    }
    let n = v.len();
    let ghost orig = v@;
    if n == 0 {
        proof {
            orig.lemma_sort_by_ensures(leq);
            vstd::seq_lib::lemma_sorted_unique(v@, orig.sort_by(leq), leq);
        }
        return;
    }
    let mut i: usize = 1;
    while i < n
        invariant
            1 <= i <= n,
            n == v.len(),
            leq == candidate_leq(),
            total_ordering(leq),
            v@.to_multiset() == orig.to_multiset(),
            forall|a: int, b: int| 0 <= a < b < i ==> leq(v@[a], v@[b]),
        decreases n - i,
    {
        let mut j: usize = i;
        while j > 0 && !cand_le(v[j - 1], v[j])
            invariant
                0 <= j <= i < n,
                n == v.len(),
                leq == candidate_leq(),
                total_ordering(leq),
                v@.to_multiset() == orig.to_multiset(),
                forall|a: int, b: int| 0 <= a < b < j ==> leq(v@[a], v@[b]),
                forall|a: int, b: int| j <= a < b <= i ==> leq(v@[a], v@[b]),
                forall|a: int, b: int| 0 <= a < j && j < b <= i ==> leq(v@[a], v@[b]),
            decreases j,
        {
            let x = v[j - 1];
            let y = v[j];
            let ghost before = v@;
            v.set(j - 1, y);
            v.set(j, x);
            proof {
                let k: int = j - 1;
                let mid = before.update(k, y);
                vstd::seq_lib::to_multiset_update(before, k, y);
                vstd::seq_lib::to_multiset_update(mid, j as int, x);
                assert(v@ == mid.update(j as int, x));
                assert(before[k] == x);
                assert(before.contains(x));
                vstd::seq_lib::to_multiset_contains(before, x);
                assert(before.to_multiset().insert(y).remove(x).insert(x).remove(y) =~= before.to_multiset());
                assert(leq(y, x));
                assert forall|a: int, b: int| 0 <= a < j - 1 && j - 1 < b <= i implies leq(v@[a], v@[b]) by {
                    if b == j {
                        assert(leq(before[a], before[k]));
                    } else {
                        assert(v@[b] == before[b]);
                    }
                }
                assert forall|a: int, b: int| j - 1 <= a < b <= i implies leq(v@[a], v@[b]) by {
                    if a == j - 1 {
                        if b == j {
                        } else {
                            assert(leq(before[j as int], before[b]));
                            assert(leq(x, before[j as int]) || leq(before[j as int], x));
                            assert(leq(before[k], before[b]) || j as int == i as int);
                        }
                    } else {
                        if a == j {
                            assert(leq(before[k], before[b]) || b > i);
                        }
                    }
                }
            }
            j = j - 1;
        }
        i = i + 1;
    }
    proof {
        assert(sorted_by(v@, leq));
        orig.lemma_sort_by_ensures(leq);
        vstd::seq_lib::lemma_sorted_unique(v@, orig.sort_by(leq), leq);
    }
}

proof fn lemma_empty_points_on_board(b: BoardView, k: int)
    requires
        0 <= k <= b.0 * b.0,
    ensures
        forall|j: int| 0 <= j < empty_points_upto(b, k).len() ==> on_board(b.0, #[trigger] empty_points_upto(b, k)[j]),
    decreases k,
{
    if k > 0 {
        lemma_empty_points_on_board(b, k - 1);
        lemma_point_of(b.0, k - 1);
        let rest = empty_points_upto(b, k - 1);
        let e = empty_points_upto(b, k);
        assert forall|j: int| 0 <= j < e.len() implies on_board(b.0, #[trigger] e[j]) by {
            if j < rest.len() {
                assert(e[j] == rest[j]);
            }
        }
    }
}

fn score_point(game: &Game, x: usize, y: usize) -> (r: u32)
    requires
        game.board.wf(),
        on_board(game.board.size, (x, y)),
    ensures
        r == point_score(*game, (x, y)),
{
    let ghost b = game.board@;
    let ghost mover = game.current_turn;
    let nbrs = game.board.get_neighbors(x, y);
    proof {
        lemma_neighbor_seq(game.board.size, (x, y));
    }
    let mut score: u32 = 0;
    let mut i: usize = 0;
    while i < nbrs.len()
        invariant
            game.board.wf(),
            b == game.board@,
            mover == game.current_turn,
            nbrs@.len() <= 4,
            0 <= i <= nbrs@.len(),
            score == neighbor_score(b, nbrs@.take(i as int), mover),
            score <= 50 * i,
        decreases nbrs@.len() - i,
    {
        let (nx, ny) = nbrs[i];
        proof {
            assert(nbrs@.take(i + 1).drop_last() =~= nbrs@.take(i as int));
        }
        match game.board.get(nx, ny) {
            Some(s) => {
                if s == game.current_turn.other() {
                    score = score + 50;
                } else {
                    score = score + 20;
                }
            },
            None => {},
        }
        i = i + 1;
    }
    assert(nbrs@.take(nbrs@.len() as int) =~= nbrs@);
    if let Some((lx, ly)) = game.last_move {
        let dx = if x >= lx { x - lx } else { lx - x };
        let dy = if y >= ly { y - ly } else { ly - y };
        if dx <= 2 && dy <= 2 - dx {
            score = score + 30;
        }
    }
    score
}

/// The moves worth trying in the game's position, in the order they are worth trying.
pub fn get_sensible_moves(game: &Game) -> (r: Vec<Point>)
    requires
        game.board.wf(),
    ensures
        r@ == sensible_moves(*game),
{
    let ghost g = *game;
    let ghost b = game.board@;
    let current_turn = game.current_turn;
    let opponent_color = current_turn.other();
    let mut moves: Vec<Point> = Vec::new();
    let capture_moves = get_fast_atari_moves(game, opponent_color);
    let save_moves = get_fast_atari_moves(game, current_turn);
    push_new(&mut moves, &capture_moves);
    push_new(&mut moves, &save_moves);
    let ghost urgent = moves@;
    assert(urgent == urgent_moves(g));
    let stone_count = count_occupied(&game.board.grid);
    if stone_count < 8 {
        let stars: [Point; 9] = [(2, 2), (6, 2), (2, 6), (6, 6), (4, 4), (3, 3), (15, 3), (3, 15), (15, 15)];
        assert(stars@ =~= star_points());
        let mut k: usize = 0;
        while k < 9
            invariant
                game.board.wf(),
                b == game.board@,
                stars@ == star_points(),
                0 <= k <= 9,
                moves@ == add_stars(b, urgent, k as int),
            decreases 9 - k,
        {
            let m = stars[k];
            if m.0 < game.board.size && m.1 < game.board.size && !contains_point(&moves, m) && game.board.get(
                m.0,
                m.1,
            ).is_none() {
                moves.push(m);
            }
            k = k + 1;
        }
        if moves.len() > 0 {
            return moves;
        }
    }
    let ghost base = moves@;
    let empty = game.get_empty_points();
    proof {
        lemma_empty_points_on_board(b, (game.board.size * game.board.size) as int);
    }
    let mut cands: Vec<(Point, u32)> = Vec::new();
    let mut i: usize = 0;
    while i < empty.len()
        invariant
            game.board.wf(),
            g == *game,
            b == game.board@,
            empty@ == empty_points(g),
            forall|j: int| 0 <= j < empty@.len() ==> on_board(game.board.size, #[trigger] empty@[j]),
            moves@ == base,
            0 <= i <= empty@.len(),
            cands@ == candidates(g, base, empty@.take(i as int)),
        decreases empty@.len() - i,
    {
        let p = empty[i];
        proof {
            assert(empty@.take(i + 1).drop_last() =~= empty@.take(i as int));
            assert(on_board(game.board.size, empty@[i as int]));
        }
        if !contains_point(&moves, p) {
            let score = score_point(game, p.0, p.1);
            if score > 0 {
                cands.push((p, score));
            }
        }
        i = i + 1;
    }
    assert(empty@.take(empty@.len() as int) =~= empty@);
    sort_candidates(&mut cands);
    let ghost sorted = cands@;
    let limit: usize = if cands.len() < 12 { cands.len() } else { 12 };
    let mut t: usize = 0;
    while t < limit
        invariant
            limit <= cands@.len(),
            cands@ == sorted,
            0 <= t <= limit,
            moves@ == base + sorted.take(t as int).map_values(|e: (Point, u32)| e.0),
        decreases limit - t,
    {
        let ghost before = moves@;
        moves.push(cands[t].0);
        proof {
            assert(sorted.take(t + 1).map_values(|e: (Point, u32)| e.0) =~= sorted.take(t as int).map_values(
                |e: (Point, u32)| e.0,
            ).push(sorted[t as int].0));
            assert(moves@ =~= base + sorted.take(t + 1).map_values(|e: (Point, u32)| e.0));
        }
        t = t + 1;
    }
    if moves.len() == 0 {
        let all = game.get_empty_points();
        let five: usize = if all.len() < 5 { all.len() } else { 5 };
        let mut first: Vec<Point> = Vec::new();
        let mut u: usize = 0;
        while u < five
            invariant
                five <= all@.len(),
                0 <= u <= five,
                first@ == all@.take(u as int),
            decreases five - u,
        {
            first.push(all[u]);
            proof {
                assert(all@.take(u + 1) =~= all@.take(u as int).push(all@[u as int]));
            }
            u = u + 1;
        }
        return first;
    }
    moves
}

} // verus!
