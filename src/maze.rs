use vstd::prelude::*;
use crate::carve::{
    Carving, carved, carving, lemma_carve, lemma_counts_update, lemma_finish, lemma_fresh_counts,
    lemma_index_all, lemma_pop, lemma_start, lemma_steps_settle, lemma_visit,
    lemma_visited_count_bound, link_model, pick_of, start, steps, unvisited, visit_model,
};
use crate::chance::{Chooser, entropy_rng, seeded_rng};
use crate::square::{Coor, Square, SquareModel};

verus! {

/// A maze as a mathematical value: its dimensions and its cells, stored
/// row after row (the cell at `(x, y)` sits at `x + y * width`).
pub ghost struct MazeModel {
    pub width: nat,
    pub height: nat,
    pub cells: Seq<SquareModel>,
}

/// `c` lies on the grid.
pub open spec fn valid(m: MazeModel, c: Coor) -> bool {
    c.0 < m.width && c.1 < m.height
}

/// Where the cell at `c` is stored.
pub open spec fn idx(m: MazeModel, c: Coor) -> int {
    c.0 + c.1 * m.width
}

/// The cell at `c`.
pub open spec fn cell(m: MazeModel, c: Coor) -> SquareModel {
    m.cells[idx(m, c)]
}

/// `a` and `b` share a side.
pub open spec fn adjacent(a: Coor, b: Coor) -> bool {
    (a.0 == b.0 && (a.1 + 1 == b.1 || b.1 + 1 == a.1))
        || (a.1 == b.1 && (a.0 + 1 == b.0 || b.0 + 1 == a.0))
}

/// The corner cell where carving starts.
pub open spec fn origin() -> Coor {
    (0usize, 0usize)
}

/// The grid's cells adjacent to `c`, in the fixed order left, right, up, down.
pub open spec fn neighbor_seq(m: MazeModel, c: Coor) -> Seq<Coor> {
    let l = if c.0 > 0 { seq![((c.0 - 1) as usize, c.1)] } else { Seq::empty() };
    let r = if c.0 + 1 < m.width { seq![((c.0 + 1) as usize, c.1)] } else { Seq::empty() };
    let u = if c.1 > 0 { seq![(c.0, (c.1 - 1) as usize)] } else { Seq::empty() };
    let d = if c.1 + 1 < m.height { seq![(c.0, (c.1 + 1) as usize)] } else { Seq::empty() };
    l + r + u + d
}

/// The number of cells that the carving has reached.
pub open spec fn visited_count(cells: Seq<SquareModel>) -> nat
    decreases cells.len(),
{
    if cells.len() == 0 {
        0
    } else {
        visited_count(cells.drop_last()) + if cells.last().visited { 1nat } else { 0nat }
    }
}

/// The sum of the lengths of all passage lists: twice the number of passages.
pub open spec fn degree_sum(cells: Seq<SquareModel>) -> nat
    decreases cells.len(),
{
    if cells.len() == 0 {
        0
    } else {
        degree_sum(cells.drop_last()) + cells.last().dests.len()
    }
}

/// Every passage joins two adjacent cells of the grid, and no list repeats a cell.
pub open spec fn passages_sound(m: MazeModel) -> bool {
    forall|a: Coor| #[trigger] valid(m, a) ==> {
        &&& cell(m, a).dests.no_duplicates()
        &&& forall|i: int| 0 <= i < cell(m, a).dests.len()
            ==> valid(m, #[trigger] cell(m, a).dests[i]) && adjacent(a, cell(m, a).dests[i])
    }
}

/// `b` is in `a`'s passages exactly when `a` is in `b`'s.
pub open spec fn symmetric(m: MazeModel) -> bool {
    forall|a: Coor, b: Coor| valid(m, a) && valid(m, b)
        ==> (#[trigger] cell(m, a).dests.contains(b) <==> #[trigger] cell(m, b).dests.contains(a))
}

/// Every cell has been reached.
pub open spec fn all_visited(m: MazeModel) -> bool {
    forall|a: Coor| #[trigger] valid(m, a) ==> cell(m, a).visited
}

/// `d` is the depth of each cell in a tree rooted at the origin whose edges are
/// the passages: the origin has depth 0, every passage joins two consecutive
/// depths, and every other cell has exactly one passage towards the origin
/// (to a cell one level less deep). Such a depth exists only when the passages
/// form a tree that spans the grid.
pub open spec fn layered(m: MazeModel, d: Seq<nat>) -> bool {
    &&& d.len() == m.cells.len()
    &&& d[idx(m, origin())] == 0
    &&& forall|a: Coor, i: int| valid(m, a) && 0 <= i < cell(m, a).dests.len() ==> {
        let e = #[trigger] cell(m, a).dests[i];
        d[idx(m, e)] + 1 == d[idx(m, a)] || d[idx(m, e)] == d[idx(m, a)] + 1
    }
    &&& forall|a: Coor| #[trigger] valid(m, a) && a != origin()
        ==> exists|i: int| 0 <= i < cell(m, a).dests.len()
            && d[idx(m, #[trigger] cell(m, a).dests[i])] + 1 == d[idx(m, a)]
    &&& forall|a: Coor, i: int, j: int|
        valid(m, a) && 0 <= i < cell(m, a).dests.len() && 0 <= j < cell(m, a).dests.len()
            && d[idx(m, #[trigger] cell(m, a).dests[i])] + 1 == d[idx(m, a)]
            && d[idx(m, #[trigger] cell(m, a).dests[j])] + 1 == d[idx(m, a)] ==> i == j
}

/// A perfect maze: every cell reached, passages symmetric and between
/// neighbours, `width * height - 1` passages in all, forming a spanning tree.
pub open spec fn perfect(m: MazeModel) -> bool {
    &&& all_visited(m)
    &&& passages_sound(m)
    &&& symmetric(m)
    &&& degree_sum(m.cells) == 2 * (m.width * m.height - 1)
    &&& exists|d: Seq<nat>| layered(m, d)
}

/// No cell of a new grid is visited or has a passage.
pub open spec fn fresh(m: MazeModel) -> bool {
    forall|i: int| 0 <= i < m.cells.len()
        ==> !(#[trigger] m.cells[i]).visited && m.cells[i].dests.len() == 0
}

/// A rectangular grid of cells.
#[derive(Debug)]
pub struct Maze {
    squares: Vec<Square>,
    width: usize,
    height: usize,
}

impl View for Maze {
    type V = MazeModel;

    closed spec fn view(&self) -> MazeModel {
        MazeModel {
            width: self.width as nat,
            height: self.height as nat,
            cells: self.squares@.map_values(|s: Square| s@),
        }
    }
}

/// Storage indices stay below `width * height` and tell coordinates apart.
pub proof fn lemma_index(m: MazeModel, a: Coor, b: Coor)
    requires
        valid(m, a),
        valid(m, b),
    ensures
        0 <= idx(m, a) < m.width * m.height,
        a != b ==> idx(m, a) != idx(m, b),
{
    let w = m.width as int;
    let h = m.height as int;
    let (ax, ay) = (a.0 as int, a.1 as int);
    let (bx, by) = (b.0 as int, b.1 as int);
    assert(0 <= ax + ay * w < w * h) by (nonlinear_arith)
        requires 0 <= ax < w, 0 <= ay < h;
    if ay < by {
        assert(ax + ay * w < bx + by * w) by (nonlinear_arith)
            requires 0 <= ax < w, 0 <= bx, ay < by;
    } else if by < ay {
        assert(bx + by * w < ax + ay * w) by (nonlinear_arith)
            requires 0 <= bx < w, 0 <= ax, by < ay;
    }
}

/// The neighbour list holds exactly the grid's cells adjacent to `c`.
proof fn lemma_neighbor_seq(m: MazeModel, c: Coor)
    requires
        valid(m, c),
        m.width <= usize::MAX,
        m.height <= usize::MAX,
    ensures
        forall|d: Coor| neighbor_seq(m, c).contains(d) <==> valid(m, d) && adjacent(c, d),
{
    let s = neighbor_seq(m, c);
    let nl: int = if c.0 > 0 { 1 } else { 0 };
    let nr: int = if c.0 + 1 < m.width { 1 } else { 0 };
    let nu: int = if c.1 > 0 { 1 } else { 0 };
    assert forall|d: Coor| s.contains(d) <==> valid(m, d) && adjacent(c, d) by {
        if valid(m, d) && adjacent(c, d) {
            if d.0 + 1 == c.0 {
                assert(s[0] == d);
            } else if c.0 + 1 == d.0 {
                assert(s[nl] == d);
            } else if d.1 + 1 == c.1 {
                assert(s[nl + nr] == d);
            } else {
                assert(s[nl + nr + nu] == d);
            }
        }
        if s.contains(d) {
            let k = choose|k: int| 0 <= k < s.len() && s[k] == d;
            let l = if c.0 > 0 { seq![((c.0 - 1) as usize, c.1)] } else { Seq::empty() };
            let r = if c.0 + 1 < m.width { seq![((c.0 + 1) as usize, c.1)] } else { Seq::empty() };
            let u = if c.1 > 0 { seq![(c.0, (c.1 - 1) as usize)] } else { Seq::empty() };
            let w = if c.1 + 1 < m.height { seq![(c.0, (c.1 + 1) as usize)] } else { Seq::empty() };
            assert(s == l + r + u + w);
            if k < nl {
                assert(s[k] == l[k]);
            } else if k < nl + nr {
                assert(s[k] == r[k - nl]);
            } else if k < nl + nr + nu {
                assert(s[k] == u[k - nl - nr]);
            } else {
                assert(s[k] == w[k - nl - nr - nu]);
            }
        }
    }
}

impl Maze {
    /// The maze's shape is consistent: both sides positive and one cell per
    /// coordinate, with every index fitting a `usize`.
    pub open spec fn wf(&self) -> bool {
        &&& self@.width > 0
        &&& self@.height > 0
        &&& self@.cells.len() == self@.width * self@.height
        &&& self@.width * self@.height <= usize::MAX
    }

    /// A `width` by `height` grid of unvisited cells without passages.
    pub fn new(width: usize, height: usize) -> (r: Maze)
        requires
            width > 0,
            height > 0,
            width * height <= usize::MAX,
        ensures
            r.wf(),
            r@.width == width,
            r@.height == height,
            fresh(r@),
    {
        let n: usize = width * height;
        let mut squares: Vec<Square> = Vec::new();
        while squares.len() < n
            invariant
                squares.len() <= n,
                forall|i: int| 0 <= i < squares@.len()
                    ==> !(#[trigger] squares@[i])@.visited && squares@[i]@.dests.len() == 0,
            decreases n - squares.len(),
        {
            squares.push(Square::new());
        }
        Maze { squares, width, height }
    }

    /// The grid's width.
    pub fn width(&self) -> (r: usize)
        ensures
            r == self@.width,
    {
        self.width
    }

    /// The grid's height.
    pub fn height(&self) -> (r: usize)
        ensures
            r == self@.height,
    {
        self.height
    }

    /// The cell at `c`.
    pub fn at(&self, c: Coor) -> (r: &Square)
        requires
            self.wf(),
            valid(self@, c),
        ensures
            r@ == cell(self@, c),
    {
        proof { lemma_index(self@, c, c); }
        &self.squares[c.0 + c.1 * self.width]
    }

    /// The grid's cells adjacent to `c`, in the order left, right, up, down.
    pub fn adjacent_squares(&self, c: Coor) -> (r: Vec<Coor>)
        requires
            self.wf(),
            valid(self@, c),
        ensures
            r@ == neighbor_seq(self@, c),
            forall|d: Coor| r@.contains(d) <==> valid(self@, d) && adjacent(c, d),
    {
        let (x, y) = c;
        let mut res: Vec<Coor> = Vec::new();
        if x > 0 {
            res.push((x - 1, y));
        }
        if x < self.width - 1 {
            res.push((x + 1, y));
        }
        if y > 0 {
            res.push((x, y - 1));
        }
        if y < self.height - 1 {
            res.push((x, y + 1));
        }
        proof {
            assert(res@ =~= neighbor_seq(self@, c));
            assert(self@.width <= usize::MAX && self@.height <= usize::MAX) by (nonlinear_arith)
                requires self@.width > 0, self@.height > 0, self@.width * self@.height <= usize::MAX;
            lemma_neighbor_seq(self@, c);
        }
        res
    }

    /// Marks the cell at `c` visited.
    fn visit_at(&mut self, c: Coor)
        requires
            old(self).wf(),
            valid(old(self)@, c),
        ensures
            final(self).wf(),
            final(self)@ == visit_model(old(self)@, c),
    {
        proof { lemma_index(self@, c, c); }
        let i = c.0 + c.1 * self.width;
        self.squares[i].visit();
        assert(self@.cells =~= visit_model(old(self)@, c).cells);
    }

    /// Appends `b` to the passages of the cell at `a`.
    fn link(&mut self, a: Coor, b: Coor)
        requires
            old(self).wf(),
            valid(old(self)@, a),
        ensures
            final(self).wf(),
            final(self)@ == link_model(old(self)@, a, b),
    {
        proof { lemma_index(self@, a, a); }
        let i = a.0 + a.1 * self.width;
        self.squares[i].add_dest(b);
        assert(self@.cells =~= link_model(old(self)@, a, b).cells);
    }

    /// The unvisited cells adjacent to `c`.
    fn candidates(&self, c: Coor) -> (r: Vec<Coor>)
        requires
            self.wf(),
            valid(self@, c),
        ensures
            r@ == neighbor_seq(self@, c).filter(unvisited(self@)),
            forall|d: Coor| #[trigger] r@.contains(d)
                <==> valid(self@, d) && adjacent(c, d) && !cell(self@, d).visited,
    {
        let adj = self.adjacent_squares(c);
        let mut res: Vec<Coor> = Vec::new();
        let mut j: usize = 0;
        while j < adj.len()
            invariant
                self.wf(),
                valid(self@, c),
                j <= adj@.len(),
                forall|d: Coor| #[trigger] adj@.contains(d) <==> valid(self@, d) && adjacent(c, d),
                adj@ == neighbor_seq(self@, c),
                res@ == adj@.take(j as int).filter(unvisited(self@)),
                forall|d: Coor| #[trigger] res@.contains(d)
                    <==> adj@.take(j as int).contains(d) && !cell(self@, d).visited,
            decreases adj.len() - j,
        {
            let d = adj[j];
            assert(adj@.contains(d));
            assert(adj@.take(j + 1) =~= adj@.take(j as int).push(d));
            let ghost before = res@;
            if !self.at(d).visited() {
                res.push(d);
            }
            proof {
                assert forall|e: Coor| #[trigger] res@.contains(e)
                    <==> adj@.take(j + 1).contains(e) && !cell(self@, e).visited by {
                    vstd::seq_lib::lemma_seq_contains_after_push(adj@.take(j as int), d, e);
                    vstd::seq_lib::lemma_seq_contains_after_push(before, d, e);
                }
                adj@.take(j as int).lemma_filter_push(d, unvisited(self@));
            }
            j += 1;
        }
        assert(adj@.take(j as int) =~= adj@);
        res
    }

    /// Carves a perfect maze by depth-first search from the origin, taking
    /// each choice among the unvisited neighbours from `chooser`. With a
    /// script, the maze is the one that the script determines.
    fn carve_with(&mut self, chooser: &mut Chooser)
        requires
            old(self).wf(),
            fresh(old(self)@),
            old(chooser).cursor() == 0,
        ensures
            final(self).wf(),
            final(self)@.width == old(self)@.width,
            final(self)@.height == old(self)@.height,
            perfect(final(self)@),
            old(chooser).is_scripted()
                ==> final(self)@ == carved(old(self)@.width, old(self)@.height, old(chooser).script()),
    {
        let ghost w = self@.width;
        let ghost h = self@.height;
        let ghost picks = chooser.script();
        let ghost scripted = chooser.is_scripted();
        let mut stack: Vec<Coor> = vec![(0, 0)];
        let ghost mut depth: Seq<nat> = Seq::new(self@.cells.len(), |i: int| 0nat);
        let ghost mut it: nat = 0;
        let ghost mut used: nat = 0;
        proof {
            assert(self@.width <= usize::MAX && self@.height <= usize::MAX) by (nonlinear_arith)
                requires self@.width > 0, self@.height > 0, self@.width * self@.height <= usize::MAX;
            lemma_start(self@);
            lemma_visited_count_bound(self@.cells);
            assert(stack@ =~= seq![origin()]);
            assert forall|i: int| 0 <= i < self@.cells.len()
                implies self@.cells[i] == start(w, h).maze.cells[i] by {
                assert(self@.cells[i].dests =~= Seq::<Coor>::empty());
            }
            assert(self@.cells =~= start(w, h).maze.cells);
            lemma_fresh_counts(self@.cells);
            assert(3 * (w * h) == 3 * w * h) by (nonlinear_arith);
        }
        while stack.len() > 0
            invariant
                self.wf(),
                self@.width == w,
                self@.height == h,
                carving(self@, stack@, depth),
                visited_count(self@.cells) <= self@.cells.len(),
                chooser.is_scripted() == scripted,
                chooser.script() == picks,
                scripted ==> chooser.cursor() == (if used < picks.len() { used } else { picks.len() }),
                scripted ==> steps(start(w, h), picks, it)
                    == (Carving { maze: self@, stack: stack@, used }),
                it + 3 * (self@.cells.len() - visited_count(self@.cells)) + stack@.len()
                    + (if stack@.len() > 0 && cell(self@, stack@.last()).visited { 2int } else { 0 })
                    <= 3 * w * h + 3,
            decreases
                3 * (self@.cells.len() - visited_count(self@.cells)) + stack@.len()
                    + (if stack@.len() > 0 && cell(self@, stack@.last()).visited { 2int } else { 0 }),
        {
            let top = stack[stack.len() - 1];
            proof {
                assert(valid(self@, stack@[stack@.len() - 1]));
                lemma_visit(self@, stack@, depth);
                lemma_index_all(self@);
                lemma_counts_update(
                    self@.cells,
                    idx(self@, top),
                    SquareModel { visited: true, dests: cell(self@, top).dests },
                );
            }
            self.visit_at(top);
            proof { lemma_visited_count_bound(self@.cells); }
            let cands = self.candidates(top);
            if cands.len() == 0 {
                proof {
                    assert forall|b: Coor| valid(self@, b) && adjacent(top, b)
                        implies cell(self@, b).visited by {
                        if !cell(self@, b).visited {
                            assert(cands@.contains(b));
                        }
                    }
                    lemma_pop(self@, stack@, depth);
                    if stack@.len() > 1 {
                        assert(cell(self@, stack@[stack@.len() - 2]).visited);
                    }
                }
                stack.pop();
            } else {
                let k = chooser.next_choice(cands.len());
                let next = cands[k];
                let ghost unlinked = self@.cells;
                proof {
                    lemma_index_all(self@);
                    assert(cands@[k as int] == next);
                    assert(cands@.contains(next));
                    lemma_carve(self@, stack@, depth, next);
                    let m1 = link_model(self@, top, next);
                    lemma_counts_update(
                        self@.cells,
                        idx(self@, top),
                        SquareModel { visited: true, dests: cell(self@, top).dests.push(next) },
                    );
                    lemma_counts_update(
                        m1.cells,
                        idx(self@, next),
                        SquareModel { visited: false, dests: cell(m1, next).dests.push(top) },
                    );
                    depth = depth.update(idx(self@, next), depth[idx(self@, top)] + 1);
                    if scripted {
                        assert(k == pick_of(picks, used) % cands@.len());
                    }
                    used = used + 1;
                }
                self.link(top, next);
                self.link(next, top);
                stack.push(next);
                proof {
                    lemma_index_all(self@);
                    assert(cell(self@, next).visited == false);
                    assert(visited_count(self@.cells) == visited_count(unlinked));
                    lemma_visited_count_bound(self@.cells);
                }
            }
            proof {
                it = it + 1;
            }
        }
        proof {
            assert(stack@ =~= Seq::<Coor>::empty());
            lemma_finish(self@, depth);
            if scripted {
                lemma_steps_settle(start(w, h), picks, it, 3 * w * h + 3);
            }
        }
    }

    /// Carves the maze with a generator seeded from the operating system.
    pub fn generate(&mut self)
        requires
            old(self).wf(),
            fresh(old(self)@),
        ensures
            final(self).wf(),
            final(self)@.width == old(self)@.width,
            final(self)@.height == old(self)@.height,
            perfect(final(self)@),
    {
        let mut chooser = Chooser::Random(entropy_rng());
        self.carve_with(&mut chooser);
    }

    /// Carves the maze with a generator seeded with `seed`, so that the same
    /// seed gives the same maze.
    pub fn generate_seeded(&mut self, seed: u64)
        requires
            old(self).wf(),
            fresh(old(self)@),
        ensures
            final(self).wf(),
            final(self)@.width == old(self)@.width,
            final(self)@.height == old(self)@.height,
            perfect(final(self)@),
    {
        let mut chooser = Chooser::Random(seeded_rng(seed));
        self.carve_with(&mut chooser);
    }

    /// Carves the maze taking its choices from `picks` in order: at each
    /// carving step the next number, modulo the number of unvisited
    /// neighbours, selects one of them in the order left, right, up, down
    /// (0 once `picks` runs out). The maze is a function of the grid's size
    /// and `picks`.
    pub fn generate_scripted(&mut self, picks: Vec<usize>)
        requires
            old(self).wf(),
            fresh(old(self)@),
        ensures
            final(self).wf(),
            final(self)@.width == old(self)@.width,
            final(self)@.height == old(self)@.height,
            perfect(final(self)@),
            final(self)@ == carved(old(self)@.width, old(self)@.height, picks@),
    {
        let mut chooser = Chooser::Scripted(picks, 0);
        self.carve_with(&mut chooser);
    }
}

} // verus!
