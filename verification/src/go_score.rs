use vstd::prelude::*;
use crate::go::{
    Board, BoardView, Game, Point, Stone, adjacent, cell_index, count_false, lemma_cell_index, lemma_opponent_twice,
    lemma_cell_index_injective, lemma_count_false_nonneg, lemma_count_false_set, lemma_neighbor_seq,
    lemma_point_of, neighbor_seq, on_board, opponent, point_of, view_at,
};

verus! {

// ---------------------------------------------------------------------------
// Empty regions
// ---------------------------------------------------------------------------

/// `path` is a chain of adjacent empty points of the board.
pub open spec fn is_empty_path(b: BoardView, path: Seq<Point>) -> bool {
    &&& path.len() > 0
    &&& forall|i: int| 0 <= i < path.len() ==> on_board(b.0, #[trigger] path[i]) && view_at(b, path[i]) is None
    &&& forall|i: int| 0 <= i < path.len() - 1 ==> adjacent(#[trigger] path[i], path[i + 1])
}

/// `p` lies in the empty region of `s`: the empty points connected to the empty point
/// `s` through empty neighbours.
pub open spec fn in_region(b: BoardView, s: Point, p: Point) -> bool {
    exists|path: Seq<Point>| #[trigger] is_empty_path(b, path) && path[0] == s && path.last() == p
}

/// The region of `s` touches a stone of colour `c`.
pub open spec fn borders(b: BoardView, s: Point, c: Stone) -> bool {
    exists|p: Point, q: Point| #[trigger] in_region(b, s, p) && #[trigger] adjacent(p, q) && on_board(b.0, q) && view_at(b, q) == Some(c)
}

/// The empty point `p` is territory of `c`: its region touches stones of `c` only.
pub open spec fn territory_point(b: BoardView, p: Point, c: Stone) -> bool {
    &&& on_board(b.0, p)
    &&& view_at(b, p) is None
    &&& borders(b, p, c)
    &&& !borders(b, p, opponent(c))
}

proof fn lemma_region_start(b: BoardView, s: Point)
    requires
        on_board(b.0, s),
        view_at(b, s) is None,
    ensures
        in_region(b, s, s),
{
    assert(is_empty_path(b, seq![s]));
}

proof fn lemma_region_points(b: BoardView, s: Point, p: Point)
    requires
        in_region(b, s, p),
    ensures
        on_board(b.0, p),
        view_at(b, p) is None,
        on_board(b.0, s),
        view_at(b, s) is None,
{
    let path = choose|path: Seq<Point>| #[trigger] is_empty_path(b, path) && path[0] == s && path.last() == p;
    assert(path[path.len() - 1] == p);
    assert(path[0] == s);
}

proof fn lemma_region_extend(b: BoardView, s: Point, p: Point, q: Point)
    requires
        in_region(b, s, p),
        adjacent(p, q),
        on_board(b.0, q),
        view_at(b, q) is None,
    ensures
        in_region(b, s, q),
{
    let path = choose|path: Seq<Point>| #[trigger] is_empty_path(b, path) && path[0] == s && path.last() == p;
    let path2 = path.push(q);
    assert(path2[path.len() - 1] == p);
    assert(is_empty_path(b, path2));
}

proof fn lemma_adjacent_symm(p: Point, q: Point)
    ensures
        adjacent(p, q) == adjacent(q, p),
{
}

proof fn lemma_region_symm(b: BoardView, s: Point, p: Point)
    requires
        in_region(b, s, p),
    ensures
        in_region(b, p, s),
{
    let path = choose|path: Seq<Point>| #[trigger] is_empty_path(b, path) && path[0] == s && path.last() == p;
    let rev = path.reverse();
    assert forall|i: int| 0 <= i < rev.len() - 1 implies adjacent(#[trigger] rev[i], rev[i + 1]) by {
        let j = path.len() - 1 - i;
        assert(rev[i] == path[j]);
        assert(rev[i + 1] == path[j - 1]);
        assert(adjacent(path[j - 1], path[j]));
        lemma_adjacent_symm(path[j - 1], path[j]);
    }
    assert forall|i: int| 0 <= i < rev.len() implies on_board(b.0, #[trigger] rev[i]) && view_at(b, rev[i]) is None by {
        assert(rev[i] == path[path.len() - 1 - i]);
    }
    assert(is_empty_path(b, rev));
    assert(rev[0] == p);
    assert(rev.last() == s);
}

proof fn lemma_region_trans(b: BoardView, s: Point, p: Point, q: Point)
    requires
        in_region(b, s, p),
        in_region(b, p, q),
    ensures
        in_region(b, s, q),
{
    let path1 = choose|path: Seq<Point>| #[trigger] is_empty_path(b, path) && path[0] == s && path.last() == p;
    let path2 = choose|path: Seq<Point>| #[trigger] is_empty_path(b, path) && path[0] == p && path.last() == q;
    let joined = path1 + path2.drop_first();
    assert forall|i: int| 0 <= i < joined.len() implies on_board(b.0, #[trigger] joined[i]) && view_at(b, joined[i]) is None by {
        if i >= path1.len() {
            assert(joined[i] == path2[i - path1.len() + 1]);
        }
    }
    assert forall|i: int| 0 <= i < joined.len() - 1 implies adjacent(#[trigger] joined[i], joined[i + 1]) by {
        if i < path1.len() - 1 {
        } else if i == path1.len() - 1 {
            assert(joined[i] == p);
            assert(joined[i + 1] == path2[1]);
            assert(path2[0] == p);
        } else {
            assert(joined[i] == path2[i - path1.len() + 1]);
            assert(joined[i + 1] == path2[i - path1.len() + 2]);
        }
    }
    assert(is_empty_path(b, joined));
    if path2.len() == 1 {
        assert(joined.last() == path1.last());
        assert(q == p);
    } else {
        assert(joined.last() == path2.last());
    }
}

/// Points of one region share their region, and with it what it touches.
proof fn lemma_region_same(b: BoardView, s: Point, p: Point)
    requires
        in_region(b, s, p),
    ensures
        forall|q: Point| #[trigger] in_region(b, p, q) == in_region(b, s, q),
        forall|c: Stone| #[trigger] borders(b, p, c) == borders(b, s, c),
        forall|c: Stone| #[trigger] territory_point(b, p, c) == territory_point(b, s, c),
{
    lemma_region_symm(b, s, p);
    lemma_region_points(b, s, p);
    assert forall|q: Point| #[trigger] in_region(b, p, q) == in_region(b, s, q) by {
        if in_region(b, p, q) {
            lemma_region_trans(b, s, p, q);
        }
        if in_region(b, s, q) {
            lemma_region_trans(b, p, s, q);
        }
    }
    assert forall|c: Stone| #[trigger] borders(b, p, c) == borders(b, s, c) by {
        if borders(b, p, c) {
            let (a, q) = choose|a: Point, q: Point| #[trigger] in_region(b, p, a) && #[trigger] adjacent(a, q) && on_board(b.0, q) && view_at(b, q) == Some(c);
            assert(in_region(b, s, a));
        }
        if borders(b, s, c) {
            let (a, q) = choose|a: Point, q: Point| #[trigger] in_region(b, s, a) && #[trigger] adjacent(a, q) && on_board(b.0, q) && view_at(b, q) == Some(c);
            assert(in_region(b, p, a));
        }
    }
}

/// A set holding `s` and, with each of its empty points, each empty neighbour, holds
/// the region of `s`.
proof fn lemma_closed_holds_region(b: BoardView, s: Point, inside: spec_fn(Point) -> bool)
    requires
        inside(s),
        forall|p: Point, q: Point| inside(p) && adjacent(p, q) && on_board(b.0, q) && view_at(b, q) is None ==> #[trigger] inside(q) || !#[trigger] adjacent(p, q),
    ensures
        forall|p: Point| #[trigger] in_region(b, s, p) ==> inside(p),
{
    assert forall|p: Point| #[trigger] in_region(b, s, p) implies inside(p) by {
        let path = choose|path: Seq<Point>| #[trigger] is_empty_path(b, path) && path[0] == s && path.last() == p;
        lemma_path_inside(b, path, inside, path.len() - 1);
    }
}

proof fn lemma_path_inside(b: BoardView, path: Seq<Point>, inside: spec_fn(Point) -> bool, k: int)
    requires
        is_empty_path(b, path),
        inside(path[0]),
        0 <= k < path.len(),
        forall|p: Point, q: Point| inside(p) && adjacent(p, q) && on_board(b.0, q) && view_at(b, q) is None ==> #[trigger] inside(q) || !#[trigger] adjacent(p, q),
    ensures
        inside(path[k]),
    decreases k,
{
    if k > 0 {
        lemma_path_inside(b, path, inside, k - 1);
        assert(adjacent(path[k - 1], path[k]));
    }
}

// ---------------------------------------------------------------------------
// Counting
// ---------------------------------------------------------------------------

/// The marked positions among `0..n` whose points are territory of `c`.
pub open spec fn marked_territory(v: Seq<bool>, b: BoardView, c: Stone, n: int) -> int
    decreases n,
{
    if n <= 0 {
        0
    } else {
        marked_territory(v, b, c, n - 1) + if v[n - 1] && territory_point(b, point_of(b.0, n - 1), c) { 1int } else { 0 }
    }
}

/// The points among positions `0..n` that are territory of `c`.
pub open spec fn territory_upto(b: BoardView, c: Stone, n: int) -> int
    decreases n,
{
    if n <= 0 {
        0
    } else {
        territory_upto(b, c, n - 1) + if territory_point(b, point_of(b.0, n - 1), c) { 1int } else { 0 }
    }
}

/// The territory of `c`: the empty points whose region touches stones of `c` only.
pub open spec fn territory(b: BoardView, c: Stone) -> int {
    territory_upto(b, c, b.0 * b.0)
}

/// The stones of colour `c` among the first `n` grid positions.
pub open spec fn stones_upto(grid: Seq<Option<Stone>>, c: Stone, n: int) -> int
    decreases n,
{
    if n <= 0 {
        0
    } else {
        stones_upto(grid, c, n - 1) + if grid[n - 1] == Some(c) { 1int } else { 0 }
    }
}

/// The stones of colour `c` on the board.
pub open spec fn stones(b: BoardView, c: Stone) -> int {
    stones_upto(b.1, c, b.1.len() as int)
}

proof fn lemma_marked_set(v: Seq<bool>, b: BoardView, c: Stone, i: int, n: int)
    requires
        0 <= i < v.len(),
        n <= v.len(),
        !v[i],
    ensures
        marked_territory(v.update(i, true), b, c, n) == marked_territory(v, b, c, n)
            + if i < n && territory_point(b, point_of(b.0, i), c) { 1int } else { 0 },
    decreases n,
{
    if n > 0 {
        lemma_marked_set(v, b, c, i, n - 1);
    }
}

proof fn lemma_marked_all(v: Seq<bool>, b: BoardView, c: Stone, n: int)
    requires
        0 <= n <= v.len(),
        forall|i: int| 0 <= i < n ==> territory_point(b, point_of(b.0, i), c) ==> v[i],
    ensures
        marked_territory(v, b, c, n) == territory_upto(b, c, n),
    decreases n,
{
    if n > 0 {
        lemma_marked_all(v, b, c, n - 1);
    }
}

proof fn lemma_marked_none(v: Seq<bool>, b: BoardView, c: Stone, n: int)
    requires
        0 <= n <= v.len(),
        forall|i: int| 0 <= i < n ==> !v[i],
    ensures
        marked_territory(v, b, c, n) == 0,
    decreases n,
{
    if n > 0 {
        lemma_marked_none(v, b, c, n - 1);
    }
}

proof fn lemma_upto_bounds(b: BoardView, c: Stone, n: int)
    ensures
        0 <= territory_upto(b, c, n) <= if n < 0 { 0 } else { n },
    decreases n,
{
    if n > 0 {
        lemma_upto_bounds(b, c, n - 1);
    }
}

proof fn lemma_stones_bounds(grid: Seq<Option<Stone>>, c: Stone, n: int)
    ensures
        0 <= stones_upto(grid, c, n) <= if n < 0 { 0 } else { n },
    decreases n,
{
    if n > 0 {
        lemma_stones_bounds(grid, c, n - 1);
    }
}

/// The point of an index is the point whose index it is.
proof fn lemma_point_of_index(size: usize, p: Point)
    requires
        on_board(size, p),
    ensures
        point_of(size, cell_index(size, p)) == p,
        0 <= cell_index(size, p) < size * size,
{
    lemma_cell_index(size, p);
    lemma_point_of(size, cell_index(size, p));
    if point_of(size, cell_index(size, p)) != p {
        lemma_cell_index_injective(size, point_of(size, cell_index(size, p)), p);
    }
}

/// A stone of colour `c` lies next to `p`.
pub open spec fn has_neighbour(b: BoardView, p: Point, c: Stone) -> bool {
    exists|q: Point| #[trigger] adjacent(p, q) && on_board(b.0, q) && view_at(b, q) == Some(c)
}

/// Some point of `pts` has a stone of colour `c` next to it.
pub open spec fn some_touch(b: BoardView, pts: Seq<Point>, c: Stone) -> bool {
    exists|i: int| 0 <= i < pts.len() && has_neighbour(b, #[trigger] pts[i], c)
}

/// `visited` marks what `v0` marks and the points of `region`.
pub open spec fn marks_region(size: usize, v0: Seq<bool>, visited: Seq<bool>, region: Seq<Point>) -> bool {
    &&& forall|p: Point| on_board(size, p) && #[trigger] visited[cell_index(size, p)] ==> v0[cell_index(size, p)] || region.contains(p)
    &&& forall|p: Point| on_board(size, p) && v0[cell_index(size, p)] ==> #[trigger] visited[cell_index(size, p)]
    &&& forall|p: Point| #[trigger] region.contains(p) ==> on_board(size, p) && visited[cell_index(size, p)]
}

proof fn lemma_marks_at(size: usize, v0: Seq<bool>, vis: Seq<bool>, reg: Seq<Point>, a: Point)
    requires
        marks_region(size, v0, vis, reg),
        on_board(size, a),
    ensures
        vis[cell_index(size, a)] <==> (v0[cell_index(size, a)] || reg.contains(a)),
{
}

/// What holds while the region of `s` is being filled: `visited` marks what `v0` marked
/// and the points found so far (each once, all in the region), the points waiting on
/// the stack lie in the region, every empty neighbour of a found point is marked or
/// waits, `s` is marked or waits, the touch flags and the territory counts agree with
/// the points found.
pub open spec fn fill_inv(b: BoardView, n: int, s: Point, v0: Seq<bool>, visited: Seq<bool>, region: Seq<Point>,
    stack: Seq<Point>, bb: bool, bw: bool) -> bool {
    let size = b.0;
    &&& visited.len() == n
    &&& v0.len() == n
    &&& n == size * size
    &&& size > 0
    &&& on_board(size, s)
    &&& view_at(b, s) is None
    &&& in_region(b, s, s)
    &&& forall|p: Point| #[trigger] in_region(b, s, p) ==> !v0[cell_index(size, p)]
    &&& marks_region(size, v0, visited, region)
    &&& region.no_duplicates()
    &&& forall|i: int| 0 <= i < region.len() ==> in_region(b, s, #[trigger] region[i])
    &&& forall|i: int| 0 <= i < stack.len() ==> in_region(b, s, #[trigger] stack[i])
    &&& forall|p: Point, q: Point| #[trigger] region.contains(p) && #[trigger] adjacent(p, q) && on_board(size, q) && view_at(b, q) is None
        ==> visited[cell_index(size, q)] || stack.contains(q)
    &&& visited[cell_index(size, s)] || stack.contains(s)
    &&& bb == some_touch(b, region, Stone::Black)
    &&& bw == some_touch(b, region, Stone::White)
    &&& marked_territory(visited, b, Stone::Black, n)
        == marked_territory(v0, b, Stone::Black, n) + if territory_point(b, s, Stone::Black) { region.len() as int } else { 0 }
    &&& marked_territory(visited, b, Stone::White, n)
        == marked_territory(v0, b, Stone::White, n) + if territory_point(b, s, Stone::White) { region.len() as int } else { 0 }
    &&& count_false(visited, n) >= 0
}

/// A popped point that is already marked can be dropped.
proof fn lemma_fill_skip(b: BoardView, n: int, s: Point, v0: Seq<bool>, visited: Seq<bool>, region: Seq<Point>,
    stack: Seq<Point>, p: Point, bb: bool, bw: bool)
    requires
        fill_inv(b, n, s, v0, visited, region, stack.push(p), bb, bw),
        on_board(b.0, p),
        visited[cell_index(b.0, p)],
    ensures
        fill_inv(b, n, s, v0, visited, region, stack, bb, bw),
{
    let size = b.0;
    let stack0 = stack.push(p);
    assert forall|i: int| 0 <= i < stack.len() implies in_region(b, s, #[trigger] stack[i]) by {
        assert(stack0[i] == stack[i]);
    }
    assert forall|a: Point, q: Point| #[trigger] region.contains(a) && #[trigger] adjacent(a, q) && on_board(size, q) && view_at(b, q) is None
        implies visited[cell_index(size, q)] || stack.contains(q) by {
        if stack0.contains(q) && !visited[cell_index(size, q)] {
            let j = choose|j: int| 0 <= j < stack0.len() && stack0[j] == q;
            if j < stack.len() {
                assert(stack[j] == q);
            }
        }
    }
    if stack0.contains(s) && !visited[cell_index(size, s)] {
        let j = choose|j: int| 0 <= j < stack0.len() && stack0[j] == s;
        if j < stack.len() {
            assert(stack[j] == s);
        }
    }
}

impl Board {
    /// Marks the popped point `p` (not marked yet), records it in the region, and puts
    /// its unmarked empty neighbours on the stack, noting the stones it touches.
    #[verifier::rlimit(60)]
    fn visit_point(&self, Ghost(s): Ghost<Point>, Ghost(v0): Ghost<Seq<bool>>, p: Point, visited: &mut Vec<bool>,
        region: &mut Vec<Point>, stack: &mut Vec<Point>, borders_black: &mut bool, borders_white: &mut bool)
        requires
            self.wf(),
            fill_inv(self@, self.grid@.len() as int, s, v0, old(visited)@, old(region)@, old(stack)@.push(p),
                *old(borders_black), *old(borders_white)),
            in_region(self@, s, p),
            !old(visited)@[cell_index(self.size, p)],
        ensures
            fill_inv(self@, self.grid@.len() as int, s, v0, final(visited)@, final(region)@, final(stack)@,
                *final(borders_black), *final(borders_white)),
            count_false(final(visited)@, self.grid@.len() as int) < count_false(old(visited)@, self.grid@.len() as int),
    {
        let ghost b = self@;
        let n = self.grid.len();
        let size = self.size;
        let ghost stack0 = stack@.push(p);
        let (cx, cy) = p;
        proof {
            lemma_region_points(b, s, p);
            lemma_cell_index(size, p);
        }
        let ci = cy * size + cx;
        let ghost visited0 = visited@;
        let ghost region0 = region@;
        proof {
            lemma_count_false_set(visited0, ci as int, n as int);
            lemma_count_false_nonneg(visited0.update(ci as int, true), n as int);
            lemma_point_of_index(size, p);
            lemma_marked_set(visited0, b, Stone::Black, ci as int, n as int);
            lemma_marked_set(visited0, b, Stone::White, ci as int, n as int);
            lemma_region_same(b, s, p);
            assert(!region0.contains(p));
        }
        visited.set(ci, true);
        region.push((cx, cy));
        proof {
            assert forall|a: Point| on_board(size, a) implies (visited@[cell_index(size, a)] <==> (v0[cell_index(size, a)] || region@.contains(a))) by {
                lemma_marks_at(size, v0, visited0, region0, a);
                if a == p {
                    assert(region@[region@.len() - 1] == p);
                } else {
                    lemma_cell_index(size, a);
                    if cell_index(size, a) == cell_index(size, p) {
                        lemma_cell_index_injective(size, a, p);
                    }
                    if region0.contains(a) {
                        let j = choose|j: int| 0 <= j < region0.len() && region0[j] == a;
                        assert(region@[j] == a);
                    }
                    if region@.contains(a) {
                        let j = choose|j: int| 0 <= j < region@.len() && region@[j] == a;
                        assert(j < region0.len());
                    }
                }
            }
            assert forall|a: Point| #[trigger] region@.contains(a) implies on_board(size, a) && visited@[cell_index(size, a)] by {
                let j = choose|j: int| 0 <= j < region@.len() && region@[j] == a;
                if j < region0.len() {
                    assert(region0[j] == a);
                    assert(region0.contains(a));
                } else {
                    assert(a == p);
                }
            }
            assert(marks_region(size, v0, visited@, region@));
            assert forall|i: int, j: int| 0 <= i < region@.len() && 0 <= j < region@.len() && i != j
                implies region@[i] != region@[j] by {
                if i == region0.len() {
                    assert(region@[j] == region0[j]);
                }
                if j == region0.len() {
                    assert(region0[i] == region@[i]);
                }
            }
            assert forall|i: int| 0 <= i < region@.len() implies in_region(b, s, #[trigger] region@[i]) by {
                if i < region0.len() {
                    assert(region@[i] == region0[i]);
                }
            }
            assert forall|i: int| 0 <= i < stack@.len() implies in_region(b, s, #[trigger] stack@[i]) by {
                assert(stack0[i] == stack@[i]);
            }
            lemma_neighbor_seq(size, p);
        }
        let ghost bb0 = *borders_black;
        let ghost bw0 = *borders_white;
        let neighbors = self.get_neighbors(cx, cy);
        let mut k: usize = 0;
        let ghost stack1 = stack@;
        let ghost vis1 = visited@;
        let ghost region1 = region@;
        while k < neighbors.len()
            invariant
                visited@ == vis1,
                region@ == region1,
                self.wf(),
                size == self.size,
                size > 0,
                b == self@,
                on_board(size, p),
                visited@.len() == n,
                n == self.grid@.len(),
                neighbors@ == neighbor_seq(size, p),
                0 <= k <= neighbors@.len(),
                in_region(b, s, p),
                forall|i: int| 0 <= i < stack1.len() ==> stack@[i] == stack1[i],
                stack@.len() >= stack1.len(),
                forall|i: int| 0 <= i < stack@.len() ==> in_region(b, s, #[trigger] stack@[i]),
                forall|j: int| 0 <= j < k ==> view_at(b, #[trigger] neighbors@[j]) is None
                    ==> visited@[cell_index(size, neighbors@[j])] || stack@.contains(neighbors@[j]),
                *borders_black == (bb0 || exists|j: int| 0 <= j < k && view_at(b, #[trigger] neighbors@[j]) == Some(Stone::Black)),
                *borders_white == (bw0 || exists|j: int| 0 <= j < k && view_at(b, #[trigger] neighbors@[j]) == Some(Stone::White)),
            decreases neighbors@.len() - k,
        {
            let (nx, ny) = neighbors[k];
            let ghost q = (nx, ny);
            proof {
                assert(neighbor_seq(size, p).contains(q));
                lemma_cell_index(size, q);
            }
            let ghost stack2 = stack@;
            let ni = ny * size + nx;
            match self.get(nx, ny) {
                None => {
                    if !visited[ni] {
                        proof {
                            lemma_region_extend(b, s, p, q);
                        }
                        stack.push((nx, ny));
                        proof {
                            assert(stack@[stack@.len() - 1] == q);
                        }
                    }
                },
                Some(Stone::Black) => {
                    *borders_black = true;
                },
                Some(Stone::White) => {
                    *borders_white = true;
                },
            }
            proof {
                assert forall|j: int| 0 <= j < k + 1 && view_at(b, #[trigger] neighbors@[j]) is None
                    implies visited@[cell_index(size, neighbors@[j])] || stack@.contains(neighbors@[j]) by {
                    if j < k && stack2.contains(neighbors@[j]) {
                        let t = choose|t: int| 0 <= t < stack2.len() && stack2[t] == neighbors@[j];
                        assert(stack@[t] == neighbors@[j]);
                    }
                }
                assert(neighbors@[k as int] == q);
            }
            k = k + 1;
        }
        proof {
            assert forall|a: Point, q: Point| #[trigger] region@.contains(a) && #[trigger] adjacent(a, q) && on_board(size, q) && view_at(b, q) is None
                implies visited@[cell_index(size, q)] || stack@.contains(q) by {
                lemma_cell_index(size, q);
                if a == p {
                    assert(neighbor_seq(size, p).contains(q));
                    let j = choose|j: int| 0 <= j < neighbors@.len() && neighbors@[j] == q;
                    assert(view_at(b, neighbors@[j]) is None);
                } else {
                    assert(region0.contains(a)) by {
                        let j = choose|j: int| 0 <= j < region@.len() && region@[j] == a;
                        assert(region0[j] == a);
                    }
                    assert(visited0[cell_index(size, q)] || stack0.contains(q));
                    if visited0[cell_index(size, q)] {
                        assert(visited@[cell_index(size, q)]);
                    } else {
                        let j = choose|j: int| 0 <= j < stack0.len() && stack0[j] == q;
                        if j < stack1.len() {
                            assert(stack@[j] == q);
                        } else {
                            assert(q == p);
                            assert(visited@[cell_index(size, p)]);
                        }
                    }
                }
            }
            lemma_cell_index(size, s);
            if stack0.contains(s) && !visited0[cell_index(size, s)] {
                let j = choose|j: int| 0 <= j < stack0.len() && stack0[j] == s;
                if j < stack1.len() {
                    assert(stack@[j] == s);
                }
            }
            lemma_neighbours_touch(b, size, p, neighbors@, Stone::Black);
            lemma_neighbours_touch(b, size, p, neighbors@, Stone::White);
            lemma_some_touch_push(b, region0, p, Stone::Black);
            lemma_some_touch_push(b, region0, p, Stone::White);
            assert(region@ == region0.push(p));
        }
    }

    /// Marks the empty region of the empty point `(x, y)` in `visited` (none of it may be
    /// marked yet) and returns its size and whether it touches black and white stones.
    fn fill_region(&self, x: usize, y: usize, visited: &mut Vec<bool>) -> (r: (usize, bool, bool))
        requires
            self.wf(),
            self.size > 0,
            on_board(self.size, (x, y)),
            view_at(self@, (x, y)) is None,
            old(visited)@.len() == self.grid@.len(),
            forall|p: Point| #[trigger] in_region(self@, (x, y), p) ==> !old(visited)@[cell_index(self.size, p)],
        ensures
            final(visited)@.len() == old(visited)@.len(),
            forall|p: Point| #![trigger final(visited)@[cell_index(self.size, p)]] #![trigger in_region(self@, (x, y), p)]
                on_board(self.size, p) ==> (final(visited)@[cell_index(self.size, p)] == (old(visited)@[cell_index(self.size, p)] || in_region(self@, (x, y), p))),
            r.1 == borders(self@, (x, y), Stone::Black),
            r.2 == borders(self@, (x, y), Stone::White),
            marked_territory(final(visited)@, self@, Stone::Black, self.grid@.len() as int)
                == marked_territory(old(visited)@, self@, Stone::Black, self.grid@.len() as int)
                + if territory_point(self@, (x, y), Stone::Black) { r.0 as int } else { 0 },
            marked_territory(final(visited)@, self@, Stone::White, self.grid@.len() as int)
                == marked_territory(old(visited)@, self@, Stone::White, self.grid@.len() as int)
                + if territory_point(self@, (x, y), Stone::White) { r.0 as int } else { 0 },
    {
        let ghost s = (x, y);
        let ghost b = self@;
        let ghost v0 = visited@;
        let nn = self.grid.len();
        let ghost n = nn as int;
        let size = self.size;
        proof {
            lemma_region_start(b, s);
            lemma_region_same(b, s, s);
            lemma_count_false_nonneg(visited@, n);
        }
        let mut region: Vec<Point> = Vec::new();
        let mut stack: Vec<Point> = Vec::new();
        stack.push((x, y));
        let mut borders_black = false;
        let mut borders_white = false;
        proof {
            assert(stack@[0] == s);
            assert(region@.len() == 0);
            assert forall|p: Point| on_board(size, p) implies (visited@[cell_index(size, p)] <==> (v0[cell_index(size, p)] || #[trigger] region@.contains(p))) by {
            }
        }
        while stack.len() > 0
            invariant
                self.wf(),
                size == self.size,
                b == self@,
                n == self.grid@.len(),
                nn == self.grid@.len(),
                fill_inv(b, n, s, v0, visited@, region@, stack@, borders_black, borders_white),
            decreases count_false(visited@, n), stack@.len(),
        {
            let ghost stack0 = stack@;
            let (cx, cy) = stack.pop().unwrap();
            let ghost p = (cx, cy);
            proof {
                assert(stack0 =~= stack@.push(p));
                assert(stack0[stack0.len() - 1] == p);
                assert(in_region(b, s, p));
                lemma_region_points(b, s, p);
                lemma_cell_index(size, p);
            }
            let ci = cy * size + cx;
            if visited[ci] {
                proof {
                    lemma_fill_skip(b, n, s, v0, visited@, region@, stack@, p, borders_black, borders_white);
                }
                continue;
            }
            self.visit_point(Ghost(s), Ghost(v0), (cx, cy), visited, &mut region, &mut stack, &mut borders_black, &mut borders_white);
        }
        proof {
            assert(region@.contains(s));
            assert forall|a: Point, q: Point| region@.contains(a) && adjacent(a, q) && on_board(b.0, q) && view_at(b, q) is None
                implies #[trigger] region@.contains(q) || !#[trigger] adjacent(a, q) by {
                let j = choose|j: int| 0 <= j < region@.len() && region@[j] == a;
                assert(in_region(b, s, region@[j]));
                lemma_region_extend(b, s, a, q);
                lemma_cell_index(size, q);
                assert(visited@[cell_index(size, q)]);
            }
            lemma_closed_holds_region(b, s, |a: Point| region@.contains(a));
            assert forall|a: Point| #[trigger] in_region(b, s, a) <==> region@.contains(a) by {
                if region@.contains(a) {
                    let j = choose|j: int| 0 <= j < region@.len() && region@[j] == a;
                }
            }
            lemma_touch_iff_borders(b, s, region@, Stone::Black);
            lemma_touch_iff_borders(b, s, region@, Stone::White);
            assert forall|p: Point| on_board(size, p) implies
                (#[trigger] visited@[cell_index(size, p)] == (v0[cell_index(size, p)] || in_region(b, s, p))) by {
                assert(region@.contains(p) == in_region(b, s, p));
                lemma_marks_at(size, v0, visited@, region@, p);
            }
        }
        (region.len(), borders_black, borders_white)
    }
}

/// A stone of colour `c` lies next to `p` exactly when one of its listed neighbours holds one.
proof fn lemma_neighbours_touch(b: BoardView, size: usize, p: Point, neighbors: Seq<Point>, c: Stone)
    requires
        b.0 == size,
        on_board(size, p),
        neighbors == neighbor_seq(size, p),
    ensures
        has_neighbour(b, p, c) == exists|j: int| 0 <= j < neighbors.len() && view_at(b, #[trigger] neighbors[j]) == Some(c),
{
    lemma_neighbor_seq(size, p);
    if has_neighbour(b, p, c) {
        let q = choose|q: Point| #[trigger] adjacent(p, q) && on_board(b.0, q) && view_at(b, q) == Some(c);
        assert(neighbor_seq(size, p).contains(q));
        let j = choose|j: int| 0 <= j < neighbors.len() && neighbors[j] == q;
    }
    if exists|j: int| 0 <= j < neighbors.len() && view_at(b, #[trigger] neighbors[j]) == Some(c) {
        let j = choose|j: int| 0 <= j < neighbors.len() && view_at(b, #[trigger] neighbors[j]) == Some(c);
        assert(neighbor_seq(size, p).contains(neighbors[j]));
        assert(adjacent(p, neighbors[j]));
    }
}

proof fn lemma_some_touch_push(b: BoardView, pts: Seq<Point>, p: Point, c: Stone)
    ensures
        some_touch(b, pts.push(p), c) == (some_touch(b, pts, c) || has_neighbour(b, p, c)),
{
    let pts2 = pts.push(p);
    if some_touch(b, pts, c) {
        let i = choose|i: int| 0 <= i < pts.len() && has_neighbour(b, #[trigger] pts[i], c);
        assert(pts2[i] == pts[i]);
    }
    if has_neighbour(b, p, c) {
        assert(pts2[pts.len() as int] == p);
    }
    if some_touch(b, pts2, c) {
        let i = choose|i: int| 0 <= i < pts2.len() && has_neighbour(b, #[trigger] pts2[i], c);
        if i < pts.len() {
            assert(pts2[i] == pts[i]);
        }
    }
}

proof fn lemma_touch_iff_borders(b: BoardView, s: Point, pts: Seq<Point>, c: Stone)
    requires
        forall|a: Point| #[trigger] in_region(b, s, a) <==> pts.contains(a),
    ensures
        some_touch(b, pts, c) == borders(b, s, c),
{
    if some_touch(b, pts, c) {
        let i = choose|i: int| 0 <= i < pts.len() && has_neighbour(b, #[trigger] pts[i], c);
        let q = choose|q: Point| #[trigger] adjacent(pts[i], q) && on_board(b.0, q) && view_at(b, q) == Some(c);
        assert(pts.contains(pts[i]));
        assert(in_region(b, s, pts[i]));
    }
    if borders(b, s, c) {
        let (a, q) = choose|a: Point, q: Point| #[trigger] in_region(b, s, a) && #[trigger] adjacent(a, q) && on_board(b.0, q) && view_at(b, q) == Some(c);
        assert(pts.contains(a));
        let i = choose|i: int| 0 <= i < pts.len() && pts[i] == a;
        assert(has_neighbour(b, pts[i], c));
    }
}


/// The empty point `p` lies in the region of an empty point among the first `k`
/// positions.
pub open spec fn covered(b: BoardView, k: int, p: Point) -> bool {
    exists|j: int| 0 <= j < k && view_at(b, point_of(b.0, j)) is None && #[trigger] in_region(b, point_of(b.0, j), p)
}

proof fn lemma_marked_bounds(v: Seq<bool>, b: BoardView, c: Stone, n: int)
    ensures
        0 <= marked_territory(v, b, c, n) <= if n < 0 { 0 } else { n },
    decreases n,
{
    if n > 0 {
        lemma_marked_bounds(v, b, c, n - 1);
    }
}

/// Score by Chinese (area) counting, in half points: Black's stones on the board and
/// territory, doubled; White's stones on the board and territory,
/// doubled, plus the komi of six and a half points (thirteen half points).
pub open spec fn score_black(g: Game) -> int {
    2 * (stones(g.board@, Stone::Black) + territory(g.board@, Stone::Black))
}

pub open spec fn score_white(g: Game) -> int {
    2 * (stones(g.board@, Stone::White) + territory(g.board@, Stone::White)) + 13
}

/// Material in half points: Black's stones and White's captures, doubled; White's
/// stones and Black's captures, doubled, plus the komi (thirteen half points).
pub open spec fn material_black(g: Game) -> int {
    2 * (stones(g.board@, Stone::Black) + g.captured_white)
}

pub open spec fn material_white(g: Game) -> int {
    13 + 2 * (stones(g.board@, Stone::White) + g.captured_black)
}

impl Game {
    /// Counts the stones of each colour on the board, in half points.
    fn count_stones(&self) -> (r: (u128, u128))
        requires
            self.board.wf(),
        ensures
            r.0 == 2 * stones(self.board@, Stone::Black),
            r.1 == 2 * stones(self.board@, Stone::White),
    {
        let mut black: u128 = 0;
        let mut white: u128 = 0;
        let mut i: usize = 0;
        while i < self.board.grid.len()
            invariant
                0 <= i <= self.board.grid@.len(),
                black == 2 * stones_upto(self.board.grid@, Stone::Black, i as int),
                white == 2 * stones_upto(self.board.grid@, Stone::White, i as int),
            decreases self.board.grid@.len() - i,
        {
            proof {
                lemma_stones_bounds(self.board.grid@, Stone::Black, i as int);
                lemma_stones_bounds(self.board.grid@, Stone::White, i as int);
            }
            match self.board.grid[i] {
                Some(Stone::Black) => {
                    black = black + 2;
                },
                Some(Stone::White) => {
                    white = white + 2;
                },
                None => {},
            }
            i = i + 1;
        }
        (black, white)
    }

    /// The territory of each colour: the empty points whose region touches stones of that
    /// colour only.
    fn count_territory(&self) -> (r: (u128, u128))
        requires
            self.board.wf(),
        ensures
            r.0 == territory(self.board@, Stone::Black),
            r.1 == territory(self.board@, Stone::White),
    {
        let size = self.board.size;
        let ghost b = self.board@;
        let n = self.board.grid.len();
        if size == 0 {
            proof {
                assert(size * size == 0) by (nonlinear_arith)
                    requires
                        size == 0,
                ;
                assert(territory_upto(b, Stone::Black, 0) == 0);
                assert(territory_upto(b, Stone::White, 0) == 0);
            }
            return (0, 0);
        }
        let mut visited: Vec<bool> = vec![false; n];
        let mut black: u128 = 0;
        let mut white: u128 = 0;
        proof {
            lemma_marked_none(visited@, b, Stone::Black, n as int);
            lemma_marked_none(visited@, b, Stone::White, n as int);
            assert forall|p: Point| on_board(size, p) implies (#[trigger] visited@[cell_index(size, p)] == covered(b, 0, p)) by {
                lemma_cell_index(size, p);
            }
        }
        let mut y: usize = 0;
        while y < size
            invariant
                self.board.wf(),
                b == self.board@,
                size == self.board.size,
                size > 0,
                n == self.board.grid@.len(),
                n == size * size,
                0 <= y <= size,
                visited@.len() == n,
                forall|p: Point| #![trigger visited@[cell_index(size, p)]] #![trigger covered(b, y * size, p)]
                    on_board(size, p) ==> (visited@[cell_index(size, p)] == covered(b, y * size, p)),
                black == marked_territory(visited@, b, Stone::Black, n as int),
                white == marked_territory(visited@, b, Stone::White, n as int),
            decreases size - y,
        {
            let mut x: usize = 0;
            while x < size
                invariant
                    self.board.wf(),
                    b == self.board@,
                    size == self.board.size,
                    size > 0,
                    n == self.board.grid@.len(),
                    n == size * size,
                    0 <= y < size,
                    0 <= x <= size,
                    visited@.len() == n,
                    forall|p: Point| #![trigger visited@[cell_index(size, p)]] #![trigger covered(b, y * size + x, p)]
                        on_board(size, p) ==> (visited@[cell_index(size, p)] == covered(b, y * size + x, p)),
                    black == marked_territory(visited@, b, Stone::Black, n as int),
                    white == marked_territory(visited@, b, Stone::White, n as int),
                decreases size - x,
            {
                let ghost k = y * size + x;
                let ghost q = (x, y);
                proof {
                    lemma_cell_index(size, q);
                    lemma_point_of_index(size, q);
                    assert(cell_index(size, q) == k);
                    lemma_marked_bounds(visited@, b, Stone::Black, n as int);
                    lemma_marked_bounds(visited@, b, Stone::White, n as int);
                }
                let idx = y * size + x;
                if visited[idx] || self.board.get(x, y).is_some() {
                    proof {
                        self.lemma_covered_step_skip(b, k, q);
                    }
                } else {
                    let ghost v0 = visited@;
                    proof {
                        self.lemma_fill_allowed(b, k, q, v0);
                    }
                    let (len, borders_black, borders_white) = self.board.fill_region(x, y, &mut visited);
                    proof {
                        lemma_marked_bounds(visited@, b, Stone::Black, n as int);
                        lemma_marked_bounds(visited@, b, Stone::White, n as int);
                        assert(opponent(Stone::Black) == Stone::White);
                        assert(opponent(Stone::White) == Stone::Black);
                        self.lemma_covered_step_fill(b, k, q, v0, visited@);
                    }
                    if borders_black && !borders_white {
                        black = black + len as u128;
                    } else if borders_white && !borders_black {
                        white = white + len as u128;
                    }
                }
                x = x + 1;
                proof {
                    assert(y * size + x == k + 1);
                    assert forall|p: Point| on_board(size, p) implies (#[trigger] visited@[cell_index(size, p)] == covered(b, y * size + x, p)) by {
                        assert(covered(b, k + 1, p) == covered(b, y * size + x, p));
                    }
                }
            }
            proof {
                assert(y * size + size == (y + 1) * size) by (nonlinear_arith);
            }
            y = y + 1;
        }
        proof {
            assert(size * size == n);
            assert forall|i: int| 0 <= i < n implies (territory_point(b, point_of(size, i), Stone::Black) ==> visited@[i])
                && (territory_point(b, point_of(size, i), Stone::White) ==> visited@[i]) by {
                lemma_point_of(size, i);
                let p = point_of(size, i);
                if view_at(b, p) is None {
                    lemma_region_start(b, p);
                    lemma_point_of_index(size, p);
                    assert(covered(b, size * size, p));
                }
            }
            lemma_marked_all(visited@, b, Stone::Black, n as int);
            lemma_marked_all(visited@, b, Stone::White, n as int);
        }
        (black, white)
    }

    proof fn lemma_covered_step_skip(&self, b: BoardView, k: int, q: Point)
        requires
            0 <= k,
            self.board.wf(),
            b == self.board@,
            b.0 > 0,
            on_board(b.0, q),
            cell_index(b.0, q) == k,
            point_of(b.0, k) == q,
            view_at(b, q) is Some || covered(b, k, q),
        ensures
            forall|p: Point| #[trigger] covered(b, k + 1, p) == covered(b, k, p),
    {
        assert forall|p: Point| #[trigger] covered(b, k + 1, p) == covered(b, k, p) by {
            if covered(b, k + 1, p) && !covered(b, k, p) {
                let j = choose|j: int| 0 <= j < k + 1 && view_at(b, point_of(b.0, j)) is None && #[trigger] in_region(b, point_of(b.0, j), p);
                assert(j == k);
                assert(in_region(b, q, p));
                lemma_region_points(b, q, p);
                let j2 = choose|j2: int| 0 <= j2 < k && view_at(b, point_of(b.0, j2)) is None && #[trigger] in_region(b, point_of(b.0, j2), q);
                lemma_region_trans(b, point_of(b.0, j2), q, p);
                assert(in_region(b, point_of(b.0, j2), p));
            }
            if covered(b, k, p) {
                let j = choose|j: int| 0 <= j < k && view_at(b, point_of(b.0, j)) is None && #[trigger] in_region(b, point_of(b.0, j), p);
                assert(0 <= j < k + 1);
            }
        }
    }

    proof fn lemma_fill_allowed(&self, b: BoardView, k: int, q: Point, v0: Seq<bool>)
        requires
            self.board.wf(),
            b == self.board@,
            on_board(b.0, q),
            cell_index(b.0, q) == k,
            v0.len() == b.0 * b.0,
            !v0[k],
            forall|p: Point| #![trigger v0[cell_index(b.0, p)]] #![trigger covered(b, k, p)]
                on_board(b.0, p) ==> (v0[cell_index(b.0, p)] == covered(b, k, p)),
        ensures
            forall|p: Point| #[trigger] in_region(b, q, p) ==> !v0[cell_index(b.0, p)],
    {
        assert forall|p: Point| #[trigger] in_region(b, q, p) implies !v0[cell_index(b.0, p)] by {
            lemma_region_points(b, q, p);
            if v0[cell_index(b.0, p)] {
                assert(covered(b, k, p));
                let j = choose|j: int| 0 <= j < k && view_at(b, point_of(b.0, j)) is None && #[trigger] in_region(b, point_of(b.0, j), p);
                lemma_region_symm(b, q, p);
                lemma_region_trans(b, point_of(b.0, j), p, q);
                assert(covered(b, k, q));
            }
        }
    }

    proof fn lemma_covered_step_fill(&self, b: BoardView, k: int, q: Point, v0: Seq<bool>, v1: Seq<bool>)
        requires
            0 <= k,
            self.board.wf(),
            b == self.board@,
            on_board(b.0, q),
            view_at(b, q) is None,
            point_of(b.0, k) == q,
            forall|p: Point| #![trigger v0[cell_index(b.0, p)]] #![trigger covered(b, k, p)]
                on_board(b.0, p) ==> (v0[cell_index(b.0, p)] == covered(b, k, p)),
            forall|p: Point| #![trigger v1[cell_index(b.0, p)]] #![trigger in_region(b, q, p)]
                on_board(b.0, p) ==> (v1[cell_index(b.0, p)] == (v0[cell_index(b.0, p)] || in_region(b, q, p))),
        ensures
            forall|p: Point| #![trigger v1[cell_index(b.0, p)]] #![trigger covered(b, k + 1, p)]
                on_board(b.0, p) ==> (v1[cell_index(b.0, p)] == covered(b, k + 1, p)),
    {
        assert forall|p: Point| on_board(b.0, p) implies (#[trigger] v1[cell_index(b.0, p)] == covered(b, k + 1, p)) by {
            assert(v1[cell_index(b.0, p)] == (v0[cell_index(b.0, p)] || in_region(b, q, p)));
            assert(v0[cell_index(b.0, p)] == covered(b, k, p));
            if covered(b, k + 1, p) && !covered(b, k, p) {
                let j = choose|j: int| 0 <= j < k + 1 && view_at(b, point_of(b.0, j)) is None && #[trigger] in_region(b, point_of(b.0, j), p);
                assert(j == k);
            }
            if covered(b, k, p) {
                let j = choose|j: int| 0 <= j < k && view_at(b, point_of(b.0, j)) is None && #[trigger] in_region(b, point_of(b.0, j), p);
                assert(0 <= j < k + 1);
            }
            if in_region(b, q, p) {
                assert(view_at(b, point_of(b.0, k)) is None && in_region(b, point_of(b.0, k), p));
                assert(covered(b, k + 1, p));
            }
        }
    }

    /// The score by Chinese (area) counting, in half points: each side's stones on the
    /// board and its territory (the empty regions touching its stones only), with White's
    /// komi of six and a half.
    pub fn calculate_score(&self) -> (r: (u128, u128))
        requires
            self.board.wf(),
        ensures
            r.0 == score_black(*self),
            r.1 == score_white(*self),
    {
        let len = self.board.grid.len();
        let (stones_black, stones_white) = self.count_stones();
        let (territory_black, territory_white) = self.count_territory();
        proof {
            lemma_stones_bounds(self.board.grid@, Stone::Black, self.board.grid@.len() as int);
            lemma_stones_bounds(self.board.grid@, Stone::White, self.board.grid@.len() as int);
            lemma_upto_bounds(self.board@, Stone::Black, self.board.size * self.board.size);
            lemma_upto_bounds(self.board@, Stone::White, self.board.size * self.board.size);
            assert(self.board.size * self.board.size == self.board.grid@.len());
        }
        let black_score: u128 = stones_black + 2 * territory_black;
        let white_score: u128 = 13 + stones_white + 2 * territory_white;
        (black_score, white_score)
    }

    /// The material: Black's stones and the stones White lost; White's stones and the
    /// stones Black lost, with the komi; in half points.
    pub fn calculate_material_score(&self) -> (r: (u128, u128))
        requires
            self.board.wf(),
        ensures
            r.0 == material_black(*self),
            r.1 == material_white(*self),
    {
        let len = self.board.grid.len();
        let (stones_black, stones_white) = self.count_stones();
        proof {
            lemma_stones_bounds(self.board.grid@, Stone::Black, self.board.grid@.len() as int);
            lemma_stones_bounds(self.board.grid@, Stone::White, self.board.grid@.len() as int);
        }
        let black_score: u128 = stones_black + 2 * (self.captured_white as u128);
        let white_score: u128 = 13 + stones_white + 2 * (self.captured_black as u128);
        (black_score, white_score)
    }
}

proof fn lemma_area_upto(b: BoardView, n: int)
    requires
        0 <= n <= b.1.len(),
        b.1.len() == b.0 * b.0,
    ensures
        stones_upto(b.1, Stone::Black, n) + stones_upto(b.1, Stone::White, n)
            + territory_upto(b, Stone::Black, n) + territory_upto(b, Stone::White, n) <= n,
    decreases n,
{
    if n > 0 {
        lemma_area_upto(b, n - 1);
        let i = n - 1;
        let p = point_of(b.0, i);
        lemma_point_of(b.0, i);
        assert(view_at(b, p) == b.1[cell_index(b.0, p)]);
    }
}

/// No point counts twice in the area score: a point holds a black stone, a white stone,
/// or is territory of one side at most, so stones and territory of both sides add up to
/// at most the number of points.
pub proof fn lemma_area_bounded(g: Game)
    requires
        g.board.wf(),
    ensures
        stones(g.board@, Stone::Black) + stones(g.board@, Stone::White)
            + territory(g.board@, Stone::Black) + territory(g.board@, Stone::White) <= g.board.size * g.board.size,
{
    lemma_area_upto(g.board@, g.board.grid@.len() as int);
}


// ---------------------------------------------------------------------------
// Exchanging the colours
// ---------------------------------------------------------------------------

/// A point's content with the colour of its stone exchanged.
pub open spec fn swap_stone(s: Option<Stone>) -> Option<Stone> {
    match s {
        Some(c) => Some(opponent(c)),
        None => None,
    }
}

/// The board with the colour of every stone exchanged.
pub open spec fn swapped(b: BoardView) -> BoardView {
    (b.0, b.1.map_values(|s: Option<Stone>| swap_stone(s)))
}

proof fn lemma_swapped_at(b: BoardView, p: Point)
    requires
        b.1.len() == b.0 * b.0,
    ensures
        view_at(swapped(b), p) == swap_stone(view_at(b, p)),
{
    if on_board(b.0, p) {
        lemma_cell_index(b.0, p);
    }
}

proof fn lemma_swapped_regions(b: BoardView)
    requires
        b.1.len() == b.0 * b.0,
    ensures
        forall|path: Seq<Point>| #[trigger] is_empty_path(swapped(b), path) == is_empty_path(b, path),
        forall|s: Point, p: Point| #[trigger] in_region(swapped(b), s, p) == in_region(b, s, p),
{
    let sw = swapped(b);
    assert forall|path: Seq<Point>| #[trigger] is_empty_path(sw, path) == is_empty_path(b, path) by {
        assert forall|i: int| 0 <= i < path.len() implies (view_at(sw, #[trigger] path[i]) is None) == (view_at(b, path[i]) is None) by {
            lemma_swapped_at(b, path[i]);
        }
    }
    assert forall|s: Point, p: Point| #[trigger] in_region(sw, s, p) == in_region(b, s, p) by {
        if in_region(sw, s, p) {
            let path = choose|path: Seq<Point>| #[trigger] is_empty_path(sw, path) && path[0] == s && path.last() == p;
            assert(is_empty_path(b, path));
        }
        if in_region(b, s, p) {
            let path = choose|path: Seq<Point>| #[trigger] is_empty_path(b, path) && path[0] == s && path.last() == p;
            assert(is_empty_path(sw, path));
        }
    }
}

proof fn lemma_swapped_territory_point(b: BoardView, p: Point, c: Stone)
    requires
        b.1.len() == b.0 * b.0,
    ensures
        territory_point(swapped(b), p, c) == territory_point(b, p, opponent(c)),
{
    let sw = swapped(b);
    lemma_swapped_regions(b);
    lemma_swapped_at(b, p);
    lemma_opponent_twice(c);
    assert forall|d: Stone| #[trigger] borders(sw, p, d) == borders(b, p, opponent(d)) by {
        lemma_opponent_twice(d);
        if borders(sw, p, d) {
            let (u, q) = choose|u: Point, q: Point| #[trigger] in_region(sw, p, u) && #[trigger] adjacent(u, q)
                && on_board(sw.0, q) && view_at(sw, q) == Some(d);
            lemma_swapped_at(b, q);
            assert(in_region(b, p, u) && adjacent(u, q) && on_board(b.0, q) && view_at(b, q) == Some(opponent(d)));
        }
        if borders(b, p, opponent(d)) {
            let (u, q) = choose|u: Point, q: Point| #[trigger] in_region(b, p, u) && #[trigger] adjacent(u, q)
                && on_board(b.0, q) && view_at(b, q) == Some(opponent(d));
            lemma_swapped_at(b, q);
            assert(in_region(sw, p, u) && adjacent(u, q) && on_board(sw.0, q) && view_at(sw, q) == Some(d));
        }
    }
    assert(borders(sw, p, c) == borders(b, p, opponent(c)));
    assert(borders(sw, p, opponent(c)) == borders(b, p, opponent(opponent(c))));
}

proof fn lemma_swapped_counts(b: BoardView, c: Stone, n: int)
    requires
        b.1.len() == b.0 * b.0,
        n <= b.1.len(),
    ensures
        territory_upto(swapped(b), c, n) == territory_upto(b, opponent(c), n),
        stones_upto(swapped(b).1, c, n) == stones_upto(b.1, opponent(c), n),
    decreases n,
{
    if n > 0 {
        lemma_swapped_counts(b, c, n - 1);
        lemma_swapped_territory_point(b, point_of(b.0, n - 1), c);
        lemma_opponent_twice(c);
        let g = b.1[n - 1];
        assert(swapped(b).1[n - 1] == swap_stone(g));
        assert((swap_stone(g) == Some(c)) == (g == Some(opponent(c)))) by {
            match g {
                Some(x) => {
                    lemma_opponent_twice(x);
                },
                None => {},
            }
        }
    }
}

/// Exchanging the colours of all stones exchanges the scores: on the board with every
/// stone of the other colour, Black scores what White scored without the komi, and White
/// scores Black's score plus the komi. So Black's and White's stones and territory count
/// alike.
pub proof fn lemma_score_colour_swap(g1: Game, g2: Game)
    requires
        g1.board.wf(),
        g2.board@ == swapped(g1.board@),
    ensures
        score_black(g2) == score_white(g1) - 13,
        score_white(g2) == score_black(g1) + 13,
{
    let b = g1.board@;
    lemma_swapped_counts(b, Stone::Black, b.0 * b.0);
    lemma_swapped_counts(b, Stone::White, b.0 * b.0);
}


proof fn lemma_territory_upto_counts(b: BoardView, c: Stone, n: int, i: int)
    requires
        0 <= i < n,
        territory_point(b, point_of(b.0, i), c),
    ensures
        territory_upto(b, c, n) >= 1,
    decreases n,
{
    if i < n - 1 {
        lemma_territory_upto_counts(b, c, n - 1, i);
    }
    lemma_territory_upto_nonneg(b, c, n - 1);
}

proof fn lemma_territory_upto_nonneg(b: BoardView, c: Stone, n: int)
    ensures
        territory_upto(b, c, n) >= 0,
    decreases n,
{
    if n > 0 {
        lemma_territory_upto_nonneg(b, c, n - 1);
    }
}

/// Territory counts: when some empty point's region touches stones of one colour only,
/// that colour scores more than its stones alone (each point of territory is worth a
/// point, two half points); and no colour ever scores less than its stones (plus the
/// komi for White).
pub proof fn lemma_territory_scores(g: Game, p: Point)
    requires
        g.board.wf(),
    ensures
        score_black(g) >= 2 * stones(g.board@, Stone::Black),
        score_white(g) >= 2 * stones(g.board@, Stone::White) + 13,
        territory_point(g.board@, p, Stone::Black) ==> score_black(g) >= 2 * stones(g.board@, Stone::Black) + 2,
        territory_point(g.board@, p, Stone::White) ==> score_white(g) >= 2 * stones(g.board@, Stone::White) + 15,
{
    let b = g.board@;
    lemma_territory_upto_nonneg(b, Stone::Black, b.0 * b.0);
    lemma_territory_upto_nonneg(b, Stone::White, b.0 * b.0);
    if on_board(b.0, p) {
        lemma_cell_index(b.0, p);
        let i = cell_index(b.0, p);
        lemma_point_of(b.0, i);
        lemma_cell_index_injective(b.0, p, point_of(b.0, i));
        if territory_point(b, p, Stone::Black) {
            lemma_territory_upto_counts(b, Stone::Black, b.0 * b.0, i);
        }
        if territory_point(b, p, Stone::White) {
            lemma_territory_upto_counts(b, Stone::White, b.0 * b.0, i);
        }
    }
}

} // verus!
