use vstd::prelude::*;

verus! {

/// A stone on the Go board.
#[derive(Clone, Copy, Debug, PartialEq, Eq, Hash, Structural)]
pub enum Stone {
    Black,
    White,
}

impl Stone {
    /// The opponent's colour.
    pub fn other(&self) -> (r: Stone)
        ensures
            r == opponent(*self),
    {
        match self {
            Stone::Black => Stone::White,
            Stone::White => Stone::Black,
        }
    }
}

pub open spec fn opponent(s: Stone) -> Stone {
    match s {
        Stone::Black => Stone::White,
        Stone::White => Stone::Black,
    }
}

/// Taking the opponent twice gives the colour back, and no colour is its own opponent.
pub proof fn lemma_opponent_twice(s: Stone)
    ensures
        opponent(opponent(s)) == s,
        opponent(s) != s,
{
}

/// A square Go board, stored row by row: point `(x, y)` is at `grid[y * size + x]`.
#[derive(Clone, Debug, PartialEq, Eq)]
pub struct Board {
    pub size: usize,
    pub grid: Vec<Option<Stone>>,
}

/// A point `(x, y)` of the board.
pub type Point = (usize, usize);

/// A board as a mathematical value: its size and its points, row by row.
pub type BoardView = (usize, Seq<Option<Stone>>);

impl View for Board {
    type V = BoardView;

    open spec fn view(&self) -> BoardView {
        (self.size, self.grid@)
    }
}

/// What lies on point `p` of board `b`; nothing off the board.
pub open spec fn view_at(b: BoardView, p: Point) -> Option<Stone> {
    if on_board(b.0, p) {
        b.1[cell_index(b.0, p)]
    } else {
        None
    }
}

pub open spec fn on_board(size: usize, p: Point) -> bool {
    p.0 < size && p.1 < size
}

/// Where point `p` is stored in the grid.
pub open spec fn cell_index(size: usize, p: Point) -> int {
    p.1 * size + p.0
}

/// `p` and `q` are horizontal or vertical neighbours.
pub open spec fn adjacent(p: Point, q: Point) -> bool {
    ||| p.0 == q.0 && (p.1 + 1 == q.1 || q.1 + 1 == p.1)
    ||| p.1 == q.1 && (p.0 + 1 == q.0 || q.0 + 1 == p.0)
}

pub proof fn lemma_cell_index(size: usize, p: Point)
    requires
        on_board(size, p),
    ensures
        0 <= cell_index(size, p) < size * size,
{
    assert(0 <= p.1 * size + p.0 < size * size) by (nonlinear_arith)
        requires
            p.0 < size,
            p.1 < size,
    ;
}

pub proof fn lemma_cell_index_injective(size: usize, p: Point, q: Point)
    requires
        on_board(size, p),
        on_board(size, q),
        cell_index(size, p) == cell_index(size, q),
    ensures
        p == q,
{
    assert(p.1 == q.1) by (nonlinear_arith)
        requires
            p.0 < size,
            q.0 < size,
            p.1 * size + p.0 == q.1 * size + q.0,
    {
        if p.1 < q.1 {
            assert(p.1 * size + size <= q.1 * size);
        } else if q.1 < p.1 {
            assert(q.1 * size + size <= p.1 * size);
        }
    }
}

impl Board {
    /// The grid holds `size * size` points.
    pub open spec fn wf(&self) -> bool {
        self.grid@.len() == self.size * self.size
    }

    /// What lies on point `p`; nothing off the board.
    pub open spec fn at(&self, p: Point) -> Option<Stone> {
        view_at(self@, p)
    }

    /// An empty board of `size` times `size` points.
    pub fn new(size: usize) -> (b: Board)
        requires
            size * size <= usize::MAX,
        ensures
            b.wf(),
            b.size == size,
            forall|i: int| 0 <= i < b.grid@.len() ==> #[trigger] b.grid@[i] is None,
    {
        Board { size, grid: vec![None; size * size] }
    }

    pub(crate) fn index(&self, x: usize, y: usize) -> (i: usize)
        requires
            self.wf(),
            x < self.size,
            y < self.size,
        ensures
            i == cell_index(self.size, (x, y)),
            i < self.grid@.len(),
    {
        let n = self.grid.len();
        proof {
            lemma_cell_index(self.size, (x, y));
            assert(y * self.size <= y * self.size + x);
        }
        y * self.size + x
    }

    /// The stone on `(x, y)`; `None` for an empty point or one off the board.
    pub fn get(&self, x: usize, y: usize) -> (r: Option<Stone>)
        requires
            self.wf(),
        ensures
            r == self.at((x, y)),
    {
        if x < self.size && y < self.size {
            self.grid[self.index(x, y)]
        } else {
            None
        }
    }

    /// Puts `stone` on `(x, y)` (or clears it); a point off the board changes nothing.
    pub fn set(&mut self, x: usize, y: usize, stone: Option<Stone>)
        requires
            old(self).wf(),
        ensures
            final(self).wf(),
            final(self).size == old(self).size,
            on_board(old(self).size, (x, y)) ==> final(self).grid@ == old(self).grid@.update(
                cell_index(old(self).size, (x, y)), stone),
            !on_board(old(self).size, (x, y)) ==> final(self).grid@ == old(self).grid@,
    {
        if x < self.size && y < self.size {
            let i = self.index(x, y);
            self.grid.set(i, stone);
        }
    }

    /// The neighbours of `(x, y)`: left, right, up, down, as far as the board reaches.
    pub fn get_neighbors(&self, x: usize, y: usize) -> (r: Vec<Point>)
        requires
            self.size > 0,
        ensures
            r@ == neighbor_seq(self.size, (x, y)),
    {
        let mut neighbors: Vec<Point> = Vec::new();
        if x > 0 {
            neighbors.push((x - 1, y));
        }
        if x < self.size - 1 {
            neighbors.push((x + 1, y));
        }
        if y > 0 {
            neighbors.push((x, y - 1));
        }
        if y < self.size - 1 {
            neighbors.push((x, y + 1));
        }
        proof {
            let p = (x, y);
            let size = self.size;
            let a: Seq<Point> = if x > 0 { seq![((x - 1) as usize, y)] } else { seq![] };
            let b: Seq<Point> = if x < size - 1 { seq![((x + 1) as usize, y)] } else { seq![] };
            let c: Seq<Point> = if y > 0 { seq![(x, (y - 1) as usize)] } else { seq![] };
            let d: Seq<Point> = if y < size - 1 { seq![(x, (y + 1) as usize)] } else { seq![] };
            assert(neighbors@ =~= a + b + c + d);
        }
        neighbors
    }
}

/// The neighbour list of `p` on a board of the given size, in the order left, right,
/// up, down.
pub open spec fn neighbor_seq(size: usize, p: Point) -> Seq<Point> {
    let (x, y) = p;
    let a: Seq<Point> = if x > 0 { seq![((x - 1) as usize, y)] } else { seq![] };
    let b: Seq<Point> = if x < size - 1 { seq![((x + 1) as usize, y)] } else { seq![] };
    let c: Seq<Point> = if y > 0 { seq![(x, (y - 1) as usize)] } else { seq![] };
    let d: Seq<Point> = if y < size - 1 { seq![(x, (y + 1) as usize)] } else { seq![] };
    a + b + c + d
}

/// On the board, the neighbour list of a point holds exactly its adjacent points on
/// the board.
pub proof fn lemma_neighbor_seq(size: usize, p: Point)
    requires
        on_board(size, p),
    ensures
        forall|q: Point| #[trigger] neighbor_seq(size, p).contains(q) <==> (on_board(size, q) && adjacent(p, q)),
        neighbor_seq(size, p).len() <= 4,
{
    let (x, y) = p;
    let a: Seq<Point> = if x > 0 { seq![((x - 1) as usize, y)] } else { seq![] };
    let b: Seq<Point> = if x < size - 1 { seq![((x + 1) as usize, y)] } else { seq![] };
    let c: Seq<Point> = if y > 0 { seq![(x, (y - 1) as usize)] } else { seq![] };
    let d: Seq<Point> = if y < size - 1 { seq![(x, (y + 1) as usize)] } else { seq![] };
    let s = a + b + c + d;
    assert forall|q: Point| #[trigger] s.contains(q) <==> (on_board(size, q) && adjacent(p, q)) by {
        if on_board(size, q) && adjacent(p, q) {
            if q.0 + 1 == x && q.1 == y {
                assert(s[0] == q);
            } else if q.0 == x + 1 && q.1 == y {
                assert(s[a.len() as int] == q);
            } else if q.0 == x && q.1 + 1 == y {
                assert(s[(a.len() + b.len()) as int] == q);
            } else {
                assert(s[(a.len() + b.len() + c.len()) as int] == q);
            }
        }
        if s.contains(q) {
            let i = choose|i: int| 0 <= i < s.len() && s[i] == q;
            if i < a.len() {
                assert(q == a[i]);
            } else if i < a.len() + b.len() {
                assert(q == b[i - a.len()]);
            } else if i < a.len() + b.len() + c.len() {
                assert(q == c[i - a.len() - b.len()]);
            } else {
                assert(q == d[i - a.len() - b.len() - c.len()]);
            }
        }
    }
}

/// `path` is a chain of adjacent points that all hold a stone of colour `c`.
pub open spec fn is_chain(b: BoardView, c: Stone, path: Seq<Point>) -> bool {
    &&& path.len() > 0
    &&& forall|i: int| 0 <= i < path.len() ==> view_at(b, #[trigger] path[i]) == Some(c)
    &&& forall|i: int| 0 <= i < path.len() - 1 ==> adjacent(#[trigger] path[i], path[i + 1])
}

/// `p` belongs to the group (the stones of one colour connected through neighbours)
/// of the stone on `s`.
pub open spec fn in_group(b: BoardView, s: Point, p: Point) -> bool {
    match view_at(b, s) {
        None => false,
        Some(c) => exists|path: Seq<Point>| #[trigger] is_chain(b, c, path) && path[0] == s && path.last() == p,
    }
}

/// The group of the stone on `s` (empty if `s` holds no stone).
pub open spec fn group_set(b: BoardView, s: Point) -> Set<Point> {
    Set::new(|p: Point| in_group(b, s, p))
}

pub proof fn lemma_in_group_extend(b: BoardView, s: Point, p: Point, q: Point)
    requires
        in_group(b, s, p),
        adjacent(p, q),
        view_at(b, q) == view_at(b, s),
    ensures
        in_group(b, s, q),
{
    let c = view_at(b, s)->0;
    let path = choose|path: Seq<Point>| #[trigger] is_chain(b, c, path) && path[0] == s && path.last() == p;
    let path2 = path.push(q);
    assert(path2[path.len() - 1] == p);
    assert(is_chain(b, c, path2));
}

pub proof fn lemma_in_group_start(b: BoardView, s: Point)
    requires
        view_at(b, s) is Some,
    ensures
        in_group(b, s, s),
        forall|p: Point| #[trigger] in_group(b, s, p) ==> view_at(b, p) == view_at(b, s) && on_board(b.0, p),
{
    let c = view_at(b, s)->0;
    assert(is_chain(b, c, seq![s]));
    assert forall|p: Point| #[trigger] in_group(b, s, p) implies view_at(b, p) == view_at(b, s) && on_board(b.0, p) by {
        let path = choose|path: Seq<Point>| #[trigger] is_chain(b, c, path) && path[0] == s && path.last() == p;
        assert(view_at(b, path[path.len() - 1]) == Some(c));
    }
}

/// A set of stones of colour `c` that holds `s` and holds, with each of its points, all
/// adjacent stones of colour `c`, holds the whole group of `s`.
pub proof fn lemma_closed_holds_group(b: BoardView, s: Point, c: Stone, inside: spec_fn(Point) -> bool)
    requires
        view_at(b, s) == Some(c),
        inside(s),
        forall|p: Point, q: Point| inside(p) && adjacent(p, q) && view_at(b, q) == Some(c) ==> #[trigger] inside(q) || !#[trigger] adjacent(p, q),
    ensures
        forall|p: Point| #[trigger] in_group(b, s, p) ==> inside(p),
{
    assert forall|p: Point| #[trigger] in_group(b, s, p) implies inside(p) by {
        let path = choose|path: Seq<Point>| #[trigger] is_chain(b, c, path) && path[0] == s && path.last() == p;
        lemma_chain_inside(b, c, path, inside, path.len() - 1);
    }
}

proof fn lemma_chain_inside(b: BoardView, c: Stone, path: Seq<Point>, inside: spec_fn(Point) -> bool, k: int)
    requires
        is_chain(b, c, path),
        inside(path[0]),
        0 <= k < path.len(),
        forall|p: Point, q: Point| inside(p) && adjacent(p, q) && view_at(b, q) == Some(c) ==> #[trigger] inside(q) || !#[trigger] adjacent(p, q),
    ensures
        inside(path[k]),
    decreases k,
{
    if k > 0 {
        lemma_chain_inside(b, c, path, inside, k - 1);
        assert(adjacent(path[k - 1], path[k]));
        assert(view_at(b, path[k]) == Some(c));
    }
}

/// How many entries of `v[0..n]` are false.
pub open spec fn count_false(v: Seq<bool>, n: int) -> int
    decreases n,
{
    if n <= 0 { 0 } else { count_false(v, n - 1) + if v[n - 1] { 0int } else { 1 } }
}

pub proof fn lemma_count_false_nonneg(v: Seq<bool>, n: int)
    ensures
        count_false(v, n) >= 0,
    decreases n,
{
    if n > 0 {
        lemma_count_false_nonneg(v, n - 1);
    }
}

pub proof fn lemma_count_false_all(v: Seq<bool>, n: int)
    requires
        0 <= n <= v.len(),
        forall|i: int| 0 <= i < n ==> !v[i],
    ensures
        count_false(v, n) == n,
    decreases n,
{
    if n > 0 {
        lemma_count_false_all(v, n - 1);
    }
}

pub proof fn lemma_count_false_set(v: Seq<bool>, i: int, n: int)
    requires
        0 <= i < v.len(),
        0 <= n <= v.len(),
        !v[i],
    ensures
        count_false(v.update(i, true), n) == count_false(v, n) - if i < n { 1int } else { 0 },
        count_false(v, n) >= 0,
    decreases n,
{
    if n > 0 {
        lemma_count_false_set(v, i, n - 1);
    }
}

impl Board {
    /// The stones of the group of the stone on `(x, y)`, each once; empty when there is
    /// no stone there.
    pub fn get_group(&self, x: usize, y: usize) -> (r: Vec<Point>)
        requires
            self.wf(),
        ensures
            r@.no_duplicates(),
            r@.to_set() == group_set(self@, (x, y)),
            forall|i: int| 0 <= i < r@.len() ==> on_board(self.size, #[trigger] r@[i]),
            view_at(self@, (x, y)) is None ==> r@.len() == 0,
            view_at(self@, (x, y)) is Some ==> r@.len() > 0 && r@[0] == (x, y),
    {
        let ghost s = (x, y);
        let color = match self.get(x, y) {
            Some(c) => c,
            None => {
                let r: Vec<Point> = Vec::new();
                proof {
                    assert(r@.to_set() =~= group_set(self@, (x, y)));
                }
                return r;
            },
        };
        proof {
            lemma_in_group_start(self@, s);
        }
        let n = self.grid.len();
        let mut group: Vec<Point> = Vec::new();
        let mut visited: Vec<bool> = vec![false; n];
        let mut stack: Vec<Point> = Vec::new();
        stack.push((x, y));
        proof {
            assert(forall|i: int| 0 <= i < n ==> !visited@[i]);
            assert forall|a: Point| on_board(self.size, a) implies (visited@[cell_index(self.size, a)] <==> #[trigger] group@.contains(a)) by {
                lemma_cell_index(self.size, a);
            }
            assert(stack@[0] == s);
        }
        while stack.len() > 0
            invariant
                self.wf(),
                self.size > 0,
                n == self.grid@.len(),
                visited@.len() == n,
                view_at(self@, s) == Some(color),
                forall|p: Point| #[trigger] in_group(self@, s, p) ==> view_at(self@, p) == Some(color) && on_board(self.size, p),
                forall|p: Point| on_board(self.size, p) ==> (visited@[cell_index(self.size, p)] <==> #[trigger] group@.contains(p)),
                group@.no_duplicates(),
                forall|i: int| 0 <= i < group@.len() ==> in_group(self@, s, #[trigger] group@[i]),
                forall|i: int| 0 <= i < stack@.len() ==> in_group(self@, s, #[trigger] stack@[i]),
                forall|p: Point, q: Point| #[trigger] group@.contains(p) && #[trigger] adjacent(p, q) && view_at(self@, q) == Some(color)
                    ==> visited@[cell_index(self.size, q)] || stack@.contains(q),
                visited@[cell_index(self.size, s)] || stack@.contains(s),
                group@.len() == 0 ==> stack@ == seq![s],
                group@.len() > 0 ==> group@[0] == s,
            decreases count_false(visited@, n as int), stack@.len(),
        {
            let ghost stack0 = stack@;
            let (cx, cy) = stack.pop().unwrap();
            let ghost p = (cx, cy);
            assert(stack0 =~= stack@.push(p));
            assert(stack0[stack0.len() - 1] == p);
            assert(in_group(self@, s, p));
            let pi = self.index(cx, cy);
            if visited[pi] {
                proof {
                    if group@.len() == 0 {
                        assert(!group@.contains(p));
                    }
                    assert forall|a: Point, q: Point| #[trigger] group@.contains(a) && #[trigger] adjacent(a, q) && view_at(self@, q) == Some(color)
                        implies visited@[cell_index(self.size, q)] || stack@.contains(q) by {
                        if stack0.contains(q) && !visited@[cell_index(self.size, q)] {
                            let j = choose|j: int| 0 <= j < stack0.len() && stack0[j] == q;
                            if j < stack@.len() {
                                assert(stack@[j] == q);
                            }
                        }
                    }
                    if stack0.contains(s) && !visited@[cell_index(self.size, s)] {
                        let j = choose|j: int| 0 <= j < stack0.len() && stack0[j] == s;
                        if j < stack@.len() {
                            assert(stack@[j] == s);
                        }
                    }
                }
                continue;
            }
            let ghost visited0 = visited@;
            let ghost group0 = group@;
            proof {
                lemma_count_false_set(visited0, pi as int, n as int);
                lemma_count_false_nonneg(visited0.update(pi as int, true), n as int);
            }
            visited.set(pi, true);
            group.push((cx, cy));
            proof {
                assert forall|a: Point| on_board(self.size, a) implies (visited@[cell_index(self.size, a)] <==> #[trigger] group@.contains(a)) by {
                    if a == p {
                        assert(group@[group@.len() - 1] == p);
                    } else {
                        lemma_cell_index(self.size, a);
                        if cell_index(self.size, a) == cell_index(self.size, p) {
                            lemma_cell_index_injective(self.size, a, p);
                        }
                        if group0.contains(a) {
                            let j = choose|j: int| 0 <= j < group0.len() && group0[j] == a;
                            assert(group@[j] == a);
                        }
                        if group@.contains(a) {
                            let j = choose|j: int| 0 <= j < group@.len() && group@[j] == a;
                            assert(j < group0.len());
                        }
                    }
                }
                assert(!group0.contains(p));
                assert forall|i: int, j: int| 0 <= i < group@.len() && 0 <= j < group@.len() && i != j
                    implies group@[i] != group@[j] by {
                    if i == group0.len() {
                        assert(group@[j] == group0[j]);
                    }
                    if j == group0.len() {
                        assert(group0[i] == group@[i]);
                    }
                }
                lemma_neighbor_seq(self.size, p);
            }
            let neighbors = self.get_neighbors(cx, cy);
            let mut k: usize = 0;
            let ghost stack1 = stack@;
            let ghost vis1 = visited@;
            let ghost group1 = group@;
            while k < neighbors.len()
                invariant
                    visited@ == vis1,
                    group@ == group1,
                    self.wf(),
                    self.size > 0,
                    on_board(self.size, p),
                    visited@.len() == n,
                    n == self.grid@.len(),
                    neighbors@ == neighbor_seq(self.size, p),
                    0 <= k <= neighbors@.len(),
                    in_group(self@, s, p),
                    view_at(self@, s) == Some(color),
                    forall|i: int| 0 <= i < stack1.len() ==> stack@[i] == stack1[i],
                    stack@.len() >= stack1.len(),
                    forall|i: int| 0 <= i < stack@.len() ==> in_group(self@, s, #[trigger] stack@[i]),
                    forall|j: int| 0 <= j < k ==> view_at(self@, #[trigger] neighbors@[j]) == Some(color)
                        ==> visited@[cell_index(self.size, neighbors@[j])] || stack@.contains(neighbors@[j]),
                decreases neighbors@.len() - k,
            {
                let (nx, ny) = neighbors[k];
                let ghost q = (nx, ny);
                proof {
                    assert(neighbor_seq(self.size, p).contains(q));
                }
                let ghost stack2 = stack@;
                if let Some(n_color) = self.get(nx, ny) {
                    let ni = self.index(nx, ny);
                    if n_color == color && !visited[ni] {
                        proof {
                            lemma_in_group_extend(self@, s, p, q);
                        }
                        stack.push((nx, ny));
                        proof {
                            assert(stack@[stack@.len() - 1] == q);
                        }
                    }
                }
                proof {
                    assert forall|j: int| 0 <= j < k + 1 && view_at(self@, #[trigger] neighbors@[j]) == Some(color)
                        implies visited@[cell_index(self.size, neighbors@[j])] || stack@.contains(neighbors@[j]) by {
                        if j < k && stack2.contains(neighbors@[j]) {
                            let t = choose|t: int| 0 <= t < stack2.len() && stack2[t] == neighbors@[j];
                            assert(stack@[t] == neighbors@[j]);
                        }
                    }
                }
                k = k + 1;
            }
            proof {
                assert forall|a: Point, q: Point| #[trigger] group@.contains(a) && #[trigger] adjacent(a, q) && view_at(self@, q) == Some(color)
                    implies visited@[cell_index(self.size, q)] || stack@.contains(q) by {
                    lemma_cell_index(self.size, q);
                    if a == p {
                        assert(neighbor_seq(self.size, p).contains(q));
                        let j = choose|j: int| 0 <= j < neighbors@.len() && neighbors@[j] == q;
                        assert(view_at(self@, neighbors@[j]) == Some(color));
                    } else {
                        assert(group0.contains(a)) by {
                            let j = choose|j: int| 0 <= j < group@.len() && group@[j] == a;
                            assert(group0[j] == a);
                        }
                        assert(visited0[cell_index(self.size, q)] || stack0.contains(q));
                        if visited0[cell_index(self.size, q)] {
                            assert(visited@[cell_index(self.size, q)]);
                        } else {
                            let j = choose|j: int| 0 <= j < stack0.len() && stack0[j] == q;
                            if j < stack1.len() {
                                assert(stack@[j] == q);
                            } else {
                                assert(q == p);
                                assert(visited@[cell_index(self.size, p)]);
                            }
                        }
                    }
                }
                lemma_cell_index(self.size, s);
                if stack0.contains(s) && !visited0[cell_index(self.size, s)] {
                    let j = choose|j: int| 0 <= j < stack0.len() && stack0[j] == s;
                    if j < stack1.len() {
                        assert(stack@[j] == s);
                    }
                }
            }
        }
        proof {
            assert(group@.contains(s));
            lemma_closed_holds_group(self@, s, color, |a: Point| group@.contains(a));
            assert(group@.to_set() =~= group_set(self@, (x, y)));
            assert forall|i: int| 0 <= i < group@.len() implies on_board(self.size, #[trigger] group@[i]) by {}
        }
        group
    }
}

/// The empty points on the board next to one of `pts`.
pub open spec fn liberties_of(b: BoardView, pts: Seq<Point>) -> Set<Point> {
    Set::new(|q: Point| on_board(b.0, q) && view_at(b, q) is None
        && exists|j: int| 0 <= j < pts.len() && adjacent(#[trigger] pts[j], q))
}

/// The liberties of the group of the stone on `s`: the empty points next to it.
pub open spec fn liberty_set(b: BoardView, s: Point) -> Set<Point> {
    Set::new(|q: Point| on_board(b.0, q) && view_at(b, q) is None
        && exists|p: Point| #[trigger] in_group(b, s, p) && adjacent(p, q))
}

impl Board {
    /// The number of liberties of the group of the stone on `(x, y)` (0 if there is
    /// no stone).
    pub fn count_liberties(&self, x: usize, y: usize) -> (r: usize)
        requires
            self.wf(),
        ensures
            r == liberty_set(self@, (x, y)).len(),
    {
        self.get_liberties(x, y).len()
    }

    /// The liberties of the group of the stone on `(x, y)`, each once, in the order the
    /// group's stones and their neighbours are visited (none if there is no stone).
    pub fn get_liberties(&self, x: usize, y: usize) -> (r: Vec<Point>)
        requires
            self.wf(),
        ensures
            r@.no_duplicates(),
            r@.to_set() == liberty_set(self@, (x, y)),
            r@.len() == liberty_set(self@, (x, y)).len(),
    {
        let group = self.get_group(x, y);
        let mut found: Vec<Point> = Vec::new();
        let n = self.grid.len();
        let mut seen: Vec<bool> = vec![false; n];
        let mut count: usize = 0;
        let ghost mut libs: Seq<Point> = Seq::empty();
        proof {
            assert forall|a: Point| on_board(self.size, a) implies (seen@[cell_index(self.size, a)] <==> #[trigger] libs.contains(a)) by {
                lemma_cell_index(self.size, a);
            }
            assert(libs.to_set() =~= liberties_of(self@, group@.take(0)));
            assert(forall|i: int| 0 <= i < n ==> !seen@[i]);
            lemma_count_false_all(seen@, n as int);
        }
        let mut i: usize = 0;
        while i < group.len()
            invariant
                self.wf(),
                n == self.grid@.len(),
                seen@.len() == n,
                0 <= i <= group@.len(),
                forall|j: int| 0 <= j < group@.len() ==> on_board(self.size, #[trigger] group@[j]),
                forall|a: Point| on_board(self.size, a) ==> (seen@[cell_index(self.size, a)] <==> #[trigger] libs.contains(a)),
                forall|j: int| 0 <= j < libs.len() ==> on_board(self.size, #[trigger] libs[j]),
                libs.no_duplicates(),
                found@ == libs,
                count == libs.len(),
                count + count_false(seen@, n as int) == n,
                libs.to_set() == liberties_of(self@, group@.take(i as int)),
            decreases group@.len() - i,
        {
            let (gx, gy) = group[i];
            let ghost p = (gx, gy);
            proof {
                lemma_neighbor_seq(self.size, p);
            }
            let neighbors = self.get_neighbors(gx, gy);
            let ghost libs0 = libs;
            let mut k: usize = 0;
            while k < neighbors.len()
                invariant
                    self.wf(),
                    n == self.grid@.len(),
                    seen@.len() == n,
                    on_board(self.size, p),
                    neighbors@ == neighbor_seq(self.size, p),
                    0 <= k <= neighbors@.len(),
                    forall|a: Point| on_board(self.size, a) ==> (seen@[cell_index(self.size, a)] <==> #[trigger] libs.contains(a)),
                    forall|j: int| 0 <= j < libs.len() ==> on_board(self.size, #[trigger] libs[j]),
                    libs.no_duplicates(),
                    found@ == libs,
                    count == libs.len(),
                    count + count_false(seen@, n as int) == n,
                    libs.to_set() == libs0.to_set().union(Set::new(|q: Point| on_board(self.size, q) && view_at(self@, q) is None
                        && exists|j: int| 0 <= j < k && neighbors@[j] == q)),
                decreases neighbors@.len() - k,
            {
                let (nx, ny) = neighbors[k];
                let ghost q = (nx, ny);
                proof {
                    assert(neighbor_seq(self.size, p).contains(q));
                }
                let ghost libs1 = libs;
                if self.get(nx, ny).is_none() {
                    let ni = self.index(nx, ny);
                    if !seen[ni] {
                        proof {
                            lemma_count_false_set(seen@, ni as int, n as int);
                            lemma_count_false_nonneg(seen@.update(ni as int, true), n as int);
                            assert(!libs.contains(q));
                        }
                        let ghost seen0 = seen@;
                        seen.set(ni, true);
                        count = count + 1;
                        found.push((nx, ny));
                        proof {
                            libs = libs.push(q);
                            assert forall|a: Point| on_board(self.size, a) && a != q implies
                                (seen@[cell_index(self.size, a)] <==> seen0[cell_index(self.size, a)]) by {
                                lemma_cell_index(self.size, a);
                                if cell_index(self.size, a) == cell_index(self.size, q) {
                                    lemma_cell_index_injective(self.size, a, q);
                                }
                            }
                            assert forall|a: Point| on_board(self.size, a) implies (seen@[cell_index(self.size, a)] <==> #[trigger] libs.contains(a)) by {
                                lemma_cell_index(self.size, a);
                                if cell_index(self.size, a) == cell_index(self.size, q) {
                                    lemma_cell_index_injective(self.size, a, q);
                                }
                                if a == q {
                                    assert(libs[libs.len() - 1] == q);
                                } else {
                                    assert(seen0[cell_index(self.size, a)] <==> libs1.contains(a));
                                }
                                if a != q && libs.contains(a) {
                                    let j = choose|j: int| 0 <= j < libs.len() && libs[j] == a;
                                    assert(libs1[j] == a);
                                }
                                if a != q && libs1.contains(a) {
                                    let j = choose|j: int| 0 <= j < libs1.len() && libs1[j] == a;
                                    assert(libs[j] == a);
                                }
                            }
                            assert forall|u: int, v: int| 0 <= u < libs.len() && 0 <= v < libs.len() && u != v
                                implies libs[u] != libs[v] by {
                                if u == libs1.len() {
                                    assert(libs[v] == libs1[v]);
                                }
                                if v == libs1.len() {
                                    assert(libs[u] == libs1[u]);
                                }
                            }
                        }
                    }
                }
                proof {
                    let old_new = Set::new(|a: Point| on_board(self.size, a) && view_at(self@, a) is None
                        && exists|j: int| 0 <= j < k && neighbors@[j] == a);
                    let new_new = Set::new(|a: Point| on_board(self.size, a) && view_at(self@, a) is None
                        && exists|j: int| 0 <= j < k + 1 && neighbors@[j] == a);
                    assert forall|a: Point| #[trigger] new_new.contains(a) <==> old_new.contains(a) || (a == q && on_board(self.size, q) && view_at(self@, q) is None) by {
                        if new_new.contains(a) && a != q {
                            let j = choose|j: int| 0 <= j < k + 1 && neighbors@[j] == a;
                            assert(j < k);
                        }
                        if a == q && on_board(self.size, q) && view_at(self@, q) is None {
                            assert(neighbors@[k as int] == a);
                        }
                    }
                    assert forall|a: Point| #[trigger] libs.to_set().contains(a) <==> libs1.to_set().contains(a)
                        || (a == q && on_board(self.size, q) && view_at(self@, q) is None) by {
                        if libs != libs1 {
                            assert(libs == libs1.push(q));
                            if libs.contains(a) && a != q {
                                let j = choose|j: int| 0 <= j < libs.len() && libs[j] == a;
                                assert(libs1[j] == a);
                            }
                            if libs1.contains(a) {
                                let j = choose|j: int| 0 <= j < libs1.len() && libs1[j] == a;
                                assert(libs[j] == a);
                            }
                            assert(libs[libs.len() - 1] == q);
                        } else if a == q && on_board(self.size, q) && view_at(self@, q) is None {
                            lemma_cell_index(self.size, q);
                        }
                    }
                    assert(libs.to_set() =~= libs0.to_set().union(new_new));
                }
                k = k + 1;
            }
            proof {
                let done = Set::new(|q: Point| on_board(self.size, q) && view_at(self@, q) is None
                    && exists|j: int| 0 <= j < neighbors@.len() && neighbors@[j] == q);
                assert forall|q: Point| #[trigger] liberties_of(self@, group@.take(i + 1)).contains(q)
                    <==> liberties_of(self@, group@.take(i as int)).contains(q) || done.contains(q) by {
                    let t0 = group@.take(i as int);
                    let t1 = group@.take(i + 1);
                    if liberties_of(self@, t1).contains(q) {
                        let j = choose|j: int| 0 <= j < t1.len() && adjacent(#[trigger] t1[j], q);
                        if j < i {
                            assert(t0[j] == t1[j]);
                        } else {
                            assert(t1[j] == p);
                            assert(neighbor_seq(self.size, p).contains(q));
                            let m = choose|m: int| 0 <= m < neighbors@.len() && neighbors@[m] == q;
                        }
                    }
                    if liberties_of(self@, t0).contains(q) {
                        let j = choose|j: int| 0 <= j < t0.len() && adjacent(#[trigger] t0[j], q);
                        assert(t1[j] == t0[j]);
                    }
                    if done.contains(q) {
                        let m = choose|m: int| 0 <= m < neighbors@.len() && neighbors@[m] == q;
                        assert(neighbor_seq(self.size, p).contains(q));
                        assert(t1[i as int] == p);
                    }
                }
                assert(libs.to_set() =~= liberties_of(self@, group@.take(i + 1)));
            }
            i = i + 1;
        }
        proof {
            assert(group@.take(group@.len() as int) =~= group@);
            assert forall|q: Point| #[trigger] liberty_set(self@, (x, y)).contains(q)
                <==> liberties_of(self@, group@).contains(q) by {
                if liberty_set(self@, (x, y)).contains(q) {
                    let a = choose|a: Point| #[trigger] in_group(self@, (x, y), a) && adjacent(a, q);
                    assert(group_set(self@, (x, y)).contains(a));
                    assert(group@.to_set().contains(a));
                    let j = choose|j: int| 0 <= j < group@.len() && group@[j] == a;
                    assert(adjacent(group@[j], q));
                }
                if liberties_of(self@, group@).contains(q) {
                    let j = choose|j: int| 0 <= j < group@.len() && adjacent(#[trigger] group@[j], q);
                    assert(group@.to_set().contains(group@[j]));
                    assert(in_group(self@, (x, y), group@[j]));
                }
            }
            assert(liberty_set(self@, (x, y)) =~= libs.to_set());
            libs.unique_seq_to_set();
        }
        found
    }
}

/// The point stored at grid position `i`.
pub open spec fn point_of(size: usize, i: int) -> Point {
    ((i % (size as int)) as usize, (i / (size as int)) as usize)
}

pub proof fn lemma_point_of(size: usize, i: int)
    requires
        0 <= i < size * size,
    ensures
        on_board(size, point_of(size, i)),
        cell_index(size, point_of(size, i)) == i,
{
    let sz = size as int;
    assert(sz > 0) by (nonlinear_arith)
        requires
            0 <= i < sz * sz,
            sz >= 0,
    ;
    vstd::arithmetic::div_mod::lemma_fundamental_div_mod(i, sz);
    vstd::arithmetic::div_mod::lemma_mod_pos_bound(i, sz);
    let q = i / sz;
    let r = i % sz;
    assert(0 <= q < sz) by (nonlinear_arith)
        requires
            i == sz * q + r,
            0 <= r < sz,
            0 <= i < sz * sz,
    ;
    assert(q * sz == sz * q) by (nonlinear_arith);
}

/// The board view `b` with `v` put on `p` (nothing changes off the board).
pub open spec fn put(b: BoardView, p: Point, v: Option<Stone>) -> BoardView {
    if on_board(b.0, p) {
        (b.0, b.1.update(cell_index(b.0, p), v))
    } else {
        b
    }
}

/// The board view `b` with the points of `gone` cleared.
pub open spec fn cleared(b: BoardView, gone: Set<Point>) -> BoardView {
    (b.0, Seq::new(b.1.len(), |i: int| if gone.contains(point_of(b.0, i)) { None } else { b.1[i] }))
}

/// The stone on `q` is taken by a move of `mover`: it is the opponent's and its group
/// has no liberty.
pub open spec fn is_taken(b: BoardView, q: Point, mover: Stone) -> bool {
    view_at(b, q) == Some(opponent(mover)) && liberty_set(b, q).len() == 0
}

/// How many stones the capture list holds after going through `nbrs`: the whole group
/// of each taken neighbour, once per neighbour (a group next to two neighbours counts
/// twice).
pub open spec fn taken_count(b: BoardView, nbrs: Seq<Point>, mover: Stone) -> int
    decreases nbrs.len(),
{
    if nbrs.len() == 0 {
        0
    } else {
        taken_count(b, nbrs.drop_last(), mover) + if is_taken(b, nbrs.last(), mover) {
            group_set(b, nbrs.last()).len() as int
        } else {
            0
        }
    }
}

/// The stones taken through the neighbours in `nbrs`.
pub open spec fn taken_points(b: BoardView, nbrs: Seq<Point>, mover: Stone) -> Set<Point> {
    Set::new(|p: Point| exists|j: int| 0 <= j < nbrs.len() && is_taken(b, #[trigger] nbrs[j], mover) && in_group(b, nbrs[j], p))
}

/// The board after `mover` plays on `p` and the taken stones are removed.
pub open spec fn board_after_move(b: BoardView, p: Point, mover: Stone) -> BoardView {
    let next = put(b, p, Some(mover));
    cleared(next, taken_points(next, neighbor_seq(b.0, p), mover))
}

/// The number of stones a move of `mover` on `p` takes, counted as the capture list
/// counts them.
pub open spec fn move_taken_count(b: BoardView, p: Point, mover: Stone) -> int {
    let next = put(b, p, Some(mover));
    taken_count(next, neighbor_seq(b.0, p), mover)
}

/// A stone cannot go off the board: it would have no liberty.
pub proof fn lemma_off_board_refused(g: Game, p: Point)
    requires
        !on_board(g.board.size, p),
    ensures
        !move_allowed(g, p),
{
    let after = board_after_move(g.board@, p, g.current_turn);
    assert(after.0 == g.board.size);
    assert(view_at(after, p) is None);
    assert(liberty_set(after, p) =~= Set::<Point>::empty());
}

/// A group has at most as many stones as the board has points.
pub proof fn lemma_group_bound(b: BoardView, s: Point)
    requires
        b.1.len() == b.0 * b.0,
    ensures
        group_set(b, s).finite(),
        group_set(b, s).len() <= b.1.len(),
{
    let size = b.0;
    let all = Seq::new((size * size) as nat, |i: int| point_of(size, i));
    all.lemma_cardinality_of_set();
    vstd::seq_lib::seq_to_set_is_finite(all);
    assert forall|p: Point| group_set(b, s).contains(p) implies all.to_set().contains(p) by {
        lemma_in_group_start(b, s);
        lemma_cell_index(size, p);
        let i = cell_index(size, p);
        lemma_point_of(size, i);
        if point_of(size, i) != p {
            lemma_cell_index_injective(size, point_of(size, i), p);
        }
        assert(all[i] == p);
    }
    vstd::set_lib::lemma_len_subset(group_set(b, s), all.to_set());
}

proof fn lemma_taken_count_bound(b: BoardView, nbrs: Seq<Point>, mover: Stone)
    requires
        b.1.len() == b.0 * b.0,
    ensures
        0 <= taken_count(b, nbrs, mover) <= nbrs.len() * b.1.len(),
    decreases nbrs.len(),
{
    if nbrs.len() > 0 {
        lemma_taken_count_bound(b, nbrs.drop_last(), mover);
        lemma_group_bound(b, nbrs.last());
        assert((nbrs.len() - 1) * b.1.len() + b.1.len() == nbrs.len() * b.1.len()) by (nonlinear_arith);
    }
}

/// A move takes at most four times as many stones as the board has points.
pub proof fn lemma_move_taken_bound(b: BoardView, p: Point, mover: Stone)
    requires
        b.1.len() == b.0 * b.0,
        on_board(b.0, p),
    ensures
        0 <= move_taken_count(b, p, mover) <= 4 * b.1.len(),
{
    let next = put(b, p, Some(mover));
    lemma_put_wf(b, p, Some(mover));
    lemma_neighbor_seq(b.0, p);
    lemma_taken_count_bound(next, neighbor_seq(b.0, p), mover);
    assert(neighbor_seq(b.0, p).len() * b.1.len() <= 4 * b.1.len()) by (nonlinear_arith)
        requires
            neighbor_seq(b.0, p).len() <= 4,
    ;
}

pub proof fn lemma_put_wf(b: BoardView, p: Point, v: Option<Stone>)
    requires
        b.1.len() == b.0 * b.0,
    ensures
        put(b, p, v).1.len() == b.0 * b.0,
        put(b, p, v).0 == b.0,
        forall|q: Point| #[trigger] view_at(put(b, p, v), q) == if q == p && on_board(b.0, p) { v } else { view_at(b, q) },
{
    if on_board(b.0, p) {
        lemma_cell_index(b.0, p);
    }
    assert forall|q: Point| #[trigger] view_at(put(b, p, v), q) == if q == p && on_board(b.0, p) { v } else { view_at(b, q) } by {
        if on_board(b.0, q) && on_board(b.0, p) {
            lemma_cell_index(b.0, q);
            lemma_cell_index(b.0, p);
            if cell_index(b.0, q) == cell_index(b.0, p) {
                lemma_cell_index_injective(b.0, q, p);
            }
        }
    }
}

fn copy_grid(v: &Vec<Option<Stone>>) -> (r: Vec<Option<Stone>>)
    ensures
        r@ == v@,
{
    let mut r: Vec<Option<Stone>> = Vec::new();
    let mut i: usize = 0;
    while i < v.len()
        invariant
            0 <= i <= v@.len(),
            r@ == v@.take(i as int),
        decreases v@.len() - i,
    {
        r.push(v[i]);
        assert(r@ =~= v@.take(i + 1));
        i = i + 1;
    }
    assert(v@.take(v@.len() as int) =~= v@);
    r
}

fn same_grid(a: &Vec<Option<Stone>>, b: &Vec<Option<Stone>>) -> (r: bool)
    ensures
        r == (a@ == b@),
{
    if a.len() != b.len() {
        return false;
    }
    let mut i: usize = 0;
    while i < a.len()
        invariant
            0 <= i <= a@.len(),
            a@.len() == b@.len(),
            forall|j: int| 0 <= j < i ==> a@[j] == b@[j],
        decreases a@.len() - i,
    {
        let same = match (a[i], b[i]) {
            (None, None) => true,
            (Some(Stone::Black), Some(Stone::Black)) => true,
            (Some(Stone::White), Some(Stone::White)) => true,
            _ => false,
        };
        if !same {
            return false;
        }
        i = i + 1;
    }
    assert(a@ =~= b@);
    true
}

/// The positions seen so far, as values.
pub open spec fn seen_views(states: Seq<Vec<Option<Stone>>>) -> Seq<Seq<Option<Stone>>> {
    states.map_values(|v: Vec<Option<Stone>>| v@)
}

fn holds_position(states: &Vec<Vec<Option<Stone>>>, grid: &Vec<Option<Stone>>) -> (r: bool)
    ensures
        r == seen_views(states@).contains(grid@),
{
    let mut i: usize = 0;
    while i < states.len()
        invariant
            0 <= i <= states@.len(),
            forall|j: int| 0 <= j < i ==> states@[j]@ != grid@,
        decreases states@.len() - i,
    {
        if same_grid(&states[i], grid) {
            assert(seen_views(states@)[i as int] == grid@);
            return true;
        }
        i = i + 1;
    }
    proof {
        if seen_views(states@).contains(grid@) {
            let j = choose|j: int| 0 <= j < seen_views(states@).len() && seen_views(states@)[j] == grid@;
            assert(states@[j]@ == grid@);
        }
    }
    false
}

/// Adds a position to the positions seen, unless it is there already.
fn remember_position(states: &mut Vec<Vec<Option<Stone>>>, grid: &Vec<Option<Stone>>)
    ensures
        seen_views(old(states)@).contains(grid@) ==> final(states)@ == old(states)@,
        !seen_views(old(states)@).contains(grid@) ==> seen_views(final(states)@) == seen_views(old(states)@).push(grid@),
{
    if !holds_position(states, grid) {
        let copy = copy_grid(grid);
        states.push(copy);
        assert(seen_views(states@) =~= seen_views(old(states)@).push(grid@));
    }
}

/// A game of Go: the board, whose turn it is, the positions seen so far (for the ko
/// rule), the passes in a row, the last move, the stones each side has lost, whether
/// the game is over, and the moves played.
#[derive(Clone)]
pub struct Game {
    pub board: Board,
    pub current_turn: Stone,
    pub previous_states: Vec<Vec<Option<Stone>>>,
    pub consecutive_passes: usize,
    pub last_move: Option<Point>,
    pub captured_black: usize,
    pub captured_white: usize,
    pub game_over: bool,
    pub history: Vec<Point>,
}

/// `r` is an error with the message `msg`.
pub open spec fn refused_with(r: Result<(), String>, msg: &str) -> bool {
    r matches Err(m) && m@ == msg@
}

/// A move of the player to move on `p` is legal: the game goes on, the point is free,
/// the new stone's group keeps a liberty, and the position is new.
pub open spec fn move_allowed(g: Game, p: Point) -> bool {
    let after = board_after_move(g.board@, p, g.current_turn);
    &&& !g.game_over
    &&& g.board.at(p) is None
    &&& liberty_set(after, p).len() > 0
    &&& !seen_views(g.previous_states@).contains(after.1)
}

proof fn lemma_taken_step(b: BoardView, nbrs: Seq<Point>, k: int, mover: Stone)
    requires
        0 <= k < nbrs.len(),
    ensures
        taken_count(b, nbrs.take(k + 1), mover) == taken_count(b, nbrs.take(k), mover) + if is_taken(b, nbrs[k], mover) {
            group_set(b, nbrs[k]).len() as int
        } else {
            0
        },
        taken_points(b, nbrs.take(k + 1), mover) == taken_points(b, nbrs.take(k), mover).union(
            if is_taken(b, nbrs[k], mover) { group_set(b, nbrs[k]) } else { Set::empty() }),
{
    let t0 = nbrs.take(k);
    let t1 = nbrs.take(k + 1);
    assert(t1.drop_last() =~= t0);
    assert(t1.last() == nbrs[k]);
    let extra = if is_taken(b, nbrs[k], mover) { group_set(b, nbrs[k]) } else { Set::<Point>::empty() };
    assert forall|a: Point| #[trigger] taken_points(b, t1, mover).contains(a) <==> taken_points(b, t0, mover).contains(a) || extra.contains(a) by {
        if taken_points(b, t1, mover).contains(a) {
            let j = choose|j: int| 0 <= j < t1.len() && is_taken(b, #[trigger] t1[j], mover) && in_group(b, t1[j], a);
            if j < k {
                assert(t0[j] == t1[j]);
            }
        }
        if taken_points(b, t0, mover).contains(a) {
            let j = choose|j: int| 0 <= j < t0.len() && is_taken(b, #[trigger] t0[j], mover) && in_group(b, t0[j], a);
            assert(t1[j] == t0[j]);
        }
        if extra.contains(a) {
            assert(t1[k] == nbrs[k]);
        }
    }
    assert(taken_points(b, t1, mover) =~= taken_points(b, t0, mover).union(extra));
}

impl Game {
    /// A new game on an empty `size` times `size` board; Black moves first.
    pub fn new(size: usize) -> (g: Game)
        requires
            size * size <= usize::MAX,
        ensures
            g.board.wf(),
            g.board.size == size,
            forall|i: int| 0 <= i < g.board.grid@.len() ==> #[trigger] g.board.grid@[i] is None,
            g.current_turn == Stone::Black,
            g.previous_states@.len() == 0,
            g.consecutive_passes == 0,
            g.last_move is None,
            g.captured_black == 0,
            g.captured_white == 0,
            !g.game_over,
            g.history@.len() == 0,
    {
        Game {
            board: Board::new(size),
            current_turn: Stone::Black,
            previous_states: Vec::new(),
            consecutive_passes: 0,
            last_move: None,
            captured_black: 0,
            captured_white: 0,
            game_over: false,
            history: Vec::new(),
        }
    }

    /// Plays a stone of the player to move on `(x, y)`: takes the opponent's groups
    /// next to it that are left without liberty, refuses suicide and the repetition of
    /// a position (ko), and passes the turn on.
    pub fn place_stone(&mut self, x: usize, y: usize) -> (r: Result<(), String>)
        requires
            old(self).board.wf(),
            old(self).game_over || old(self).board.size > 0,
            move_allowed(*old(self), (x, y)) ==> {
                let n = move_taken_count(old(self).board@, (x, y), old(self).current_turn);
                &&& old(self).captured_black + n <= usize::MAX
                &&& old(self).captured_white + n <= usize::MAX
            },
        ensures
            final(self).board.wf(),
            old(self).game_over ==> refused_with(r, "Spiel ist zu Ende") && *final(self) == *old(self),
            !old(self).game_over && old(self).board.at((x, y)) is Some ==> refused_with(r, "Punkt ist nicht frei") && *final(self) == *old(self),
            ({
                let after = board_after_move(old(self).board@, (x, y), old(self).current_turn);
                &&& !old(self).game_over && old(self).board.at((x, y)) is None && liberty_set(after, (x, y)).len() == 0
                    ==> refused_with(r, "Selbstmordzug") && *final(self) == *old(self)
                &&& !old(self).game_over && old(self).board.at((x, y)) is None && liberty_set(after, (x, y)).len() > 0
                    && seen_views(old(self).previous_states@).contains(after.1)
                    ==> refused_with(r, "Ko Regelverstoß") && *final(self) == *old(self)
            }),
            move_allowed(*old(self), (x, y)) ==> {
                let after = board_after_move(old(self).board@, (x, y), old(self).current_turn);
                let n = move_taken_count(old(self).board@, (x, y), old(self).current_turn);
                &&& r is Ok
                &&& final(self).board@ == after
                &&& old(self).current_turn == Stone::Black ==> final(self).captured_white == old(self).captured_white + n
                    && final(self).captured_black == old(self).captured_black
                &&& old(self).current_turn == Stone::White ==> final(self).captured_black == old(self).captured_black + n
                    && final(self).captured_white == old(self).captured_white
                &&& seen_views(final(self).previous_states@) == seen_views(old(self).previous_states@).push(after.1)
                &&& final(self).current_turn == opponent(old(self).current_turn)
                &&& final(self).consecutive_passes == 0
                &&& final(self).last_move == Some((x, y))
                &&& final(self).history@ == old(self).history@.push((x, y))
                &&& final(self).game_over == old(self).game_over
            },
    {
        let ghost b0 = self.board@;
        let ghost p = (x, y);
        let ghost mover = self.current_turn;
        if self.game_over {
            return Err("Spiel ist zu Ende".to_string());
        }
        if self.board.get(x, y).is_some() {
            return Err("Punkt ist nicht frei".to_string());
        }
        let mut next_board = Board { size: self.board.size, grid: copy_grid(&self.board.grid) };
        next_board.set(x, y, Some(self.current_turn));
        let ghost next = next_board@;
        proof {
            lemma_put_wf(b0, p, Some(mover));
            assert(next == put(b0, p, Some(mover)));
        }
        let neighbors = next_board.get_neighbors(x, y);
        let mut captured_stones: Vec<Point> = Vec::new();
        let mut k: usize = 0;
        proof {
            assert(captured_stones@.to_set() =~= taken_points(next, neighbors@.take(0), mover));
        }
        while k < neighbors.len()
            invariant
                next_board@ == next,
                next_board.wf(),
                neighbors@ == neighbor_seq(b0.0, p),
                mover == self.current_turn,
                0 <= k <= neighbors@.len(),
                captured_stones@.len() == taken_count(next, neighbors@.take(k as int), mover),
                captured_stones@.to_set() == taken_points(next, neighbors@.take(k as int), mover),
                forall|i: int| 0 <= i < captured_stones@.len() ==> on_board(next.0, #[trigger] captured_stones@[i]),
            decreases neighbors@.len() - k,
        {
            let (nx, ny) = neighbors[k];
            let ghost q = (nx, ny);
            proof {
                lemma_taken_step(next, neighbors@, k as int, mover);
            }
            let ghost cap0 = captured_stones@;
            if let Some(s) = next_board.get(nx, ny) {
                if s == self.current_turn.other() && next_board.count_liberties(nx, ny) == 0 {
                    let mut group = next_board.get_group(nx, ny);
                    let ghost gr = group@;
                    captured_stones.append(&mut group);
                    proof {
                        gr.unique_seq_to_set();
                        assert(captured_stones@ == cap0 + gr);
                        assert forall|a: Point| #[trigger] captured_stones@.to_set().contains(a)
                            <==> cap0.to_set().contains(a) || gr.to_set().contains(a) by {
                            if captured_stones@.contains(a) {
                                let i = choose|i: int| 0 <= i < captured_stones@.len() && captured_stones@[i] == a;
                                if i >= cap0.len() {
                                    assert(gr[i - cap0.len()] == a);
                                }
                            }
                            if gr.contains(a) {
                                let i = choose|i: int| 0 <= i < gr.len() && gr[i] == a;
                                assert(captured_stones@[cap0.len() + i] == a);
                            }
                            if cap0.contains(a) {
                                let i = choose|i: int| 0 <= i < cap0.len() && cap0[i] == a;
                                assert(captured_stones@[i] == a);
                            }
                        }
                        assert(captured_stones@.to_set() =~= cap0.to_set().union(gr.to_set()));
                        assert forall|i: int| 0 <= i < captured_stones@.len() implies on_board(next.0, #[trigger] captured_stones@[i]) by {
                            if i >= cap0.len() {
                                assert(captured_stones@[i] == gr[i - cap0.len()]);
                            }
                        }
                    }
                }
            }
            k = k + 1;
        }
        proof {
            assert(neighbors@.take(neighbors@.len() as int) =~= neighbors@);
        }
        let ghost gone = taken_points(next, neighbor_seq(b0.0, p), mover);
        let mut j: usize = 0;
        while j < captured_stones.len()
            invariant
                next_board.wf(),
                next_board.size == next.0,
                0 <= j <= captured_stones@.len(),
                next.1.len() == next.0 * next.0,
                forall|q: Point| #[trigger] view_at(next_board@, q) == if on_board(next.0, q) && captured_stones@.take(j as int).contains(q) {
                    None
                } else {
                    view_at(next, q)
                },
            decreases captured_stones@.len() - j,
        {
            let (cx, cy) = captured_stones[j];
            let ghost b1 = next_board@;
            next_board.set(cx, cy, None);
            proof {
                lemma_put_wf(b1, (cx, cy), None);
                assert(next_board@ == put(b1, (cx, cy), None));
                assert forall|q: Point| #[trigger] view_at(next_board@, q) == if on_board(next.0, q) && captured_stones@.take(j + 1).contains(q) {
                    None
                } else {
                    view_at(next, q)
                } by {
                    let t0 = captured_stones@.take(j as int);
                    let t1 = captured_stones@.take(j + 1);
                    assert(t1[j as int] == (cx, cy));
                    if t0.contains(q) {
                        let i = choose|i: int| 0 <= i < t0.len() && t0[i] == q;
                        assert(t1[i] == q);
                    }
                    if t1.contains(q) && q != (cx, cy) {
                        let i = choose|i: int| 0 <= i < t1.len() && t1[i] == q;
                        assert(t0[i] == q);
                    }
                }
            }
            j = j + 1;
        }
        proof {
            let after = cleared(next, gone);
            assert(captured_stones@.take(captured_stones@.len() as int) =~= captured_stones@);
            assert forall|i: int| 0 <= i < next.1.len() implies next_board.grid@[i] == after.1[i] by {
                lemma_point_of(next.0, i);
                let q = point_of(next.0, i);
                assert(view_at(next_board@, q) == next_board.grid@[i]);
                assert(captured_stones@.contains(q) <==> captured_stones@.to_set().contains(q));
            }
            assert(next_board.grid@ =~= after.1);
            assert(next_board@ == board_after_move(b0, p, mover));
        }
        if next_board.count_liberties(x, y) == 0 {
            return Err("Selbstmordzug".to_string());
        }
        if holds_position(&self.previous_states, &next_board.grid) {
            return Err("Ko Regelverstoß".to_string());
        }
        self.board = next_board;
        if self.current_turn == Stone::Black {
            self.captured_white = self.captured_white + captured_stones.len();
        } else {
            self.captured_black = self.captured_black + captured_stones.len();
        }
        remember_position(&mut self.previous_states, &self.board.grid);
        self.current_turn = self.current_turn.other();
        self.consecutive_passes = 0;
        self.last_move = Some((x, y));
        self.history.push((x, y));
        Ok(())
    }
}

/// The empty points among the first `k` grid positions, in row-major order.
pub open spec fn empty_points_upto(b: BoardView, k: int) -> Seq<Point>
    decreases k,
{
    if k <= 0 {
        Seq::empty()
    } else if view_at(b, point_of(b.0, k - 1)) is None {
        empty_points_upto(b, k - 1).push(point_of(b.0, k - 1))
    } else {
        empty_points_upto(b, k - 1)
    }
}

impl Game {
    /// The player to move passes. Two passes in a row end the game.
    pub fn pass(&mut self)
        requires
            old(self).consecutive_passes < usize::MAX,
        ensures
            seen_views(old(self).previous_states@).contains(old(self).board.grid@)
                ==> final(self).previous_states@ == old(self).previous_states@,
            !seen_views(old(self).previous_states@).contains(old(self).board.grid@)
                ==> seen_views(final(self).previous_states@) == seen_views(old(self).previous_states@).push(old(self).board.grid@),
            final(self).consecutive_passes == old(self).consecutive_passes + 1,
            final(self).current_turn == opponent(old(self).current_turn),
            final(self).last_move is None,
            final(self).game_over == (old(self).game_over || old(self).consecutive_passes + 1 >= 2),
            final(self).board == old(self).board,
            final(self).captured_black == old(self).captured_black,
            final(self).captured_white == old(self).captured_white,
            final(self).history == old(self).history,
    {
        remember_position(&mut self.previous_states, &self.board.grid);
        self.consecutive_passes = self.consecutive_passes + 1;
        self.current_turn = self.current_turn.other();
        self.last_move = None;
        if self.consecutive_passes >= 2 {
            self.game_over = true;
        }
    }

    /// All empty points, row by row.
    pub fn get_empty_points(&self) -> (r: Vec<Point>)
        requires
            self.board.wf(),
        ensures
            r@ == empty_points_upto(self.board@, self.board.size * self.board.size),
    {
        let size = self.board.size;
        let ghost b = self.board@;
        let mut points: Vec<Point> = Vec::new();
        let mut y: usize = 0;
        while y < size
            invariant
                self.board.wf(),
                b == self.board@,
                size == self.board.size,
                0 <= y <= size,
                points@ == empty_points_upto(b, y * size),
            decreases size - y,
        {
            let mut x: usize = 0;
            while x < size
                invariant
                    self.board.wf(),
                    b == self.board@,
                    size == self.board.size,
                    0 <= y < size,
                    0 <= x <= size,
                    points@ == empty_points_upto(b, y * size + x),
                decreases size - x,
            {
                proof {
                    lemma_cell_index(size, (x, y));
                    lemma_point_of(size, y * size + x);
                    if point_of(size, y * size + x) != (x, y) {
                        lemma_cell_index_injective(size, point_of(size, y * size + x), (x, y));
                    }
                }
                if self.board.get(x, y).is_none() {
                    points.push((x, y));
                }
                x = x + 1;
            }
            proof {
                assert(y * size + size == (y + 1) * size) by (nonlinear_arith);
            }
            y = y + 1;
        }
        points
    }

    /// The game is over (also when the last two moves were passes).
    pub fn is_terminal(&self) -> (r: bool)
        ensures
            r == (self.game_over || self.consecutive_passes >= 2),
    {
        self.game_over || self.consecutive_passes >= 2
    }
}

/// An accepted move goes on a free point, keeps a liberty for the new stone's group (no
/// suicide), and never brings back a position seen before (ko).
pub proof fn lemma_accepted_move(g: Game, p: Point)
    requires
        move_allowed(g, p),
    ensures
        g.board.at(p) is None,
        liberty_set(board_after_move(g.board@, p, g.current_turn), p).len() > 0,
        !seen_views(g.previous_states@).contains(board_after_move(g.board@, p, g.current_turn).1),
{
}

/// Two passes in a row end the game: whatever state the first pass starts from (with a
/// move just made), after the second pass the game is over.
pub proof fn lemma_two_passes_end(g0: Game, g1: Game, g2: Game)
    requires
        g1.consecutive_passes == g0.consecutive_passes + 1,
        g1.game_over == (g0.game_over || g0.consecutive_passes + 1 >= 2),
        g2.consecutive_passes == g1.consecutive_passes + 1,
        g2.game_over == (g1.game_over || g1.consecutive_passes + 1 >= 2),
    ensures
        g2.game_over,
{
}

} // verus!
