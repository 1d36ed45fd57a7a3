use vstd::prelude::*;
use crate::maze::{
    MazeModel, adjacent, cell, degree_sum, fresh, idx, layered, neighbor_seq, origin,
    passages_sound, perfect, symmetric, valid, visited_count,
};
use crate::square::{Coor, SquareModel};

verus! {

/// `a` is the top of the carving stack.
pub open spec fn top_is(s: Seq<Coor>, a: Coor) -> bool {
    s.len() > 0 && s.last() == a
}

/// The carving has reached `a`, or is about to (it was just pushed).
pub open spec fn claimed(m: MazeModel, s: Seq<Coor>, a: Coor) -> bool {
    cell(m, a).visited || top_is(s, a)
}

/// 1 when the top of the stack is a cell not yet marked visited, else 0.
pub open spec fn fresh_top(m: MazeModel, s: Seq<Coor>) -> nat {
    if s.len() > 0 && !cell(m, s.last()).visited { 1 } else { 0 }
}

/// What holds of the grid, the stack `s` and the depths `d` between two steps
/// of the depth-first carving.
pub open spec fn carving(m: MazeModel, s: Seq<Coor>, d: Seq<nat>) -> bool {
    &&& m.cells.len() == m.width * m.height
    &&& m.width <= usize::MAX
    &&& m.height <= usize::MAX
    &&& passages_sound(m)
    &&& symmetric(m)
    &&& s.no_duplicates()
    &&& forall|k: int| 0 <= k < s.len() ==> valid(m, #[trigger] s[k])
    &&& forall|k: int| 0 <= k < s.len() - 1 ==> cell(m, #[trigger] s[k]).visited
    &&& cell(m, origin()).visited || s == seq![origin()]
    &&& forall|a: Coor| #[trigger] valid(m, a) && !claimed(m, s, a) ==> cell(m, a).dests.len() == 0
    &&& forall|a: Coor, b: Coor|
        valid(m, a) && valid(m, b) && #[trigger] adjacent(a, b) && cell(m, a).visited
            && !s.contains(a) ==> claimed(m, s, b)
    &&& degree_sum(m.cells) + 2 == 2 * (visited_count(m.cells) + fresh_top(m, s))
    &&& d.len() == m.cells.len()
    &&& d[idx(m, origin())] == 0
    &&& forall|a: Coor, i: int| valid(m, a) && 0 <= i < cell(m, a).dests.len() ==> {
        let e = #[trigger] cell(m, a).dests[i];
        d[idx(m, e)] + 1 == d[idx(m, a)] || d[idx(m, e)] == d[idx(m, a)] + 1
    }
    &&& forall|a: Coor| #[trigger] valid(m, a) && a != origin() && claimed(m, s, a)
        ==> exists|i: int| 0 <= i < cell(m, a).dests.len()
            && d[idx(m, #[trigger] cell(m, a).dests[i])] + 1 == d[idx(m, a)]
    &&& forall|a: Coor, i: int, j: int|
        valid(m, a) && 0 <= i < cell(m, a).dests.len() && 0 <= j < cell(m, a).dests.len()
            && d[idx(m, #[trigger] cell(m, a).dests[i])] + 1 == d[idx(m, a)]
            && d[idx(m, #[trigger] cell(m, a).dests[j])] + 1 == d[idx(m, a)] ==> i == j
}

/// Every coordinate of the grid has its own storage index.
pub proof fn lemma_index_all(m: MazeModel)
    ensures
        forall|a: Coor| #[trigger] valid(m, a) ==> 0 <= idx(m, a) < m.width * m.height,
        forall|a: Coor, b: Coor| valid(m, a) && valid(m, b) && a != b
            ==> #[trigger] idx(m, a) != #[trigger] idx(m, b),
{
    assert forall|a: Coor| #[trigger] valid(m, a) implies 0 <= idx(m, a) < m.width * m.height by {
        crate::maze::lemma_index(m, a, a);
    }
    assert forall|a: Coor, b: Coor| valid(m, a) && valid(m, b) && a != b
        implies #[trigger] idx(m, a) != #[trigger] idx(m, b) by {
        crate::maze::lemma_index(m, a, b);
    }
}

/// How replacing one cell changes the visited count and the degree sum.
pub proof fn lemma_counts_update(cells: Seq<SquareModel>, i: int, v: SquareModel)
    requires
        0 <= i < cells.len(),
    ensures
        visited_count(cells.update(i, v)) + (if cells[i].visited { 1int } else { 0 })
            == visited_count(cells) + (if v.visited { 1int } else { 0 }),
        degree_sum(cells.update(i, v)) + cells[i].dests.len() == degree_sum(cells) + v.dests.len(),
    decreases cells.len(),
{
    let u = cells.update(i, v);
    if i == cells.len() - 1 {
        assert(u.drop_last() =~= cells.drop_last());
    } else {
        assert(u.drop_last() =~= cells.drop_last().update(i, v));
        lemma_counts_update(cells.drop_last(), i, v);
    }
}

/// At most every cell is visited, and the count is full when all are.
pub proof fn lemma_visited_count_bound(cells: Seq<SquareModel>)
    ensures
        visited_count(cells) <= cells.len(),
        (forall|i: int| 0 <= i < cells.len() ==> (#[trigger] cells[i]).visited)
            ==> visited_count(cells) == cells.len(),
    decreases cells.len(),
{
    if cells.len() > 0 {
        lemma_visited_count_bound(cells.drop_last());
        if forall|i: int| 0 <= i < cells.len() ==> (#[trigger] cells[i]).visited {
            assert forall|i: int| 0 <= i < cells.drop_last().len()
                implies (#[trigger] cells.drop_last()[i]).visited by {
                assert(cells[i].visited);
            }
        }
    }
}

/// The grid after the cell at `t` is marked visited.
pub open spec fn visit_model(m: MazeModel, t: Coor) -> MazeModel {
    MazeModel {
        cells: m.cells.update(idx(m, t), SquareModel { visited: true, dests: cell(m, t).dests }),
        ..m
    }
}

/// The grid after `b` is appended to the passages of the cell at `a`.
pub open spec fn link_model(m: MazeModel, a: Coor, b: Coor) -> MazeModel {
    MazeModel {
        cells: m.cells.update(
            idx(m, a),
            SquareModel { visited: cell(m, a).visited, dests: cell(m, a).dests.push(b) },
        ),
        ..m
    }
}

/// Marking the top of the stack visited keeps the carving invariant.
pub proof fn lemma_visit(m: MazeModel, s: Seq<Coor>, d: Seq<nat>)
    requires
        carving(m, s, d),
        s.len() > 0,
    ensures
        carving(visit_model(m, s.last()), s, d),
{
    let t = s.last();
    let m2 = visit_model(m, t);
    let v = SquareModel { visited: true, dests: cell(m, t).dests };
    assert(valid(m, s[s.len() - 1]));
    lemma_index_all(m);
    lemma_counts_update(m.cells, idx(m, t), v);
    assert forall|a: Coor| valid(m, a)
        implies #[trigger] cell(m2, a) == (if a == t { v } else { cell(m, a) }) by {}
    assert forall|a: Coor, b: Coor| valid(m2, a) && valid(m2, b)
        implies (#[trigger] cell(m2, a).dests.contains(b) <==> #[trigger] cell(m2, b).dests.contains(a)) by {
        assert(valid(m, a) && valid(m, b));
        assert(cell(m, a).dests.contains(b) <==> cell(m, b).dests.contains(a));
    }
    assert forall|k: int| 0 <= k < s.len() - 1 implies cell(m2, #[trigger] s[k]).visited by {
        assert(valid(m, s[k]));
    }
    assert forall|a: Coor, b: Coor|
        valid(m2, a) && valid(m2, b) && #[trigger] adjacent(a, b) && cell(m2, a).visited
            && !s.contains(a) implies claimed(m2, s, b) by {
        assert(valid(m, a) && valid(m, b));
        assert(s[s.len() - 1] == t);
        if a != t {
            assert(claimed(m, s, b));
        }
    }
    assert forall|a: Coor| #[trigger] valid(m2, a) && a != origin() && claimed(m2, s, a)
        implies exists|i: int| 0 <= i < cell(m2, a).dests.len()
            && d[idx(m2, #[trigger] cell(m2, a).dests[i])] + 1 == d[idx(m2, a)] by {
        assert(valid(m, a));
        assert(claimed(m, s, a));
        let i = choose|i: int| 0 <= i < cell(m, a).dests.len()
            && d[idx(m, #[trigger] cell(m, a).dests[i])] + 1 == d[idx(m, a)];
        assert(cell(m2, a).dests[i] == cell(m, a).dests[i]);
    }
    assert forall|a: Coor| #[trigger] valid(m2, a) implies {
        &&& cell(m2, a).dests.no_duplicates()
        &&& forall|i: int| 0 <= i < cell(m2, a).dests.len()
            ==> valid(m2, #[trigger] cell(m2, a).dests[i]) && adjacent(a, cell(m2, a).dests[i])
    } by {
        assert(valid(m, a));
        assert forall|i: int| 0 <= i < cell(m2, a).dests.len()
            implies valid(m2, #[trigger] cell(m2, a).dests[i]) && adjacent(a, cell(m2, a).dests[i]) by {
            assert(valid(m, cell(m, a).dests[i]));
        }
    }
    assert forall|a: Coor, i: int| valid(m2, a) && 0 <= i < cell(m2, a).dests.len() implies {
        let e = #[trigger] cell(m2, a).dests[i];
        d[idx(m2, e)] + 1 == d[idx(m2, a)] || d[idx(m2, e)] == d[idx(m2, a)] + 1
    } by {
        assert(valid(m, a));
    }
    assert forall|a: Coor, i: int, j: int|
        valid(m2, a) && 0 <= i < cell(m2, a).dests.len() && 0 <= j < cell(m2, a).dests.len()
            && d[idx(m2, #[trigger] cell(m2, a).dests[i])] + 1 == d[idx(m2, a)]
            && d[idx(m2, #[trigger] cell(m2, a).dests[j])] + 1 == d[idx(m2, a)] implies i == j by {
        assert(valid(m, a));
    }
    assert(degree_sum(m2.cells) + 2 == 2 * (visited_count(m2.cells) + fresh_top(m2, s)));
    assert(cell(m2, origin()).visited || s == seq![origin()]);
    assert(d[idx(m2, origin())] == 0);
    assert forall|a: Coor| #[trigger] valid(m2, a) && !claimed(m2, s, a)
        implies cell(m2, a).dests.len() == 0 by {
        assert(valid(m, a));
    }
    assert(carving(m2, s, d));
}

/// Leaving a visited top whose neighbours are all visited keeps the invariant.
pub proof fn lemma_pop(m: MazeModel, s: Seq<Coor>, d: Seq<nat>)
    requires
        carving(m, s, d),
        s.len() > 0,
        cell(m, s.last()).visited,
        forall|b: Coor| valid(m, b) && adjacent(s.last(), b) ==> cell(m, b).visited,
    ensures
        carving(m, s.drop_last(), d),
{
    let t = s.last();
    let s2 = s.drop_last();
    assert(valid(m, s[s.len() - 1]));
    assert(s =~= s2.push(t));
    assert forall|k: int| 0 <= k < s2.len() implies valid(m, #[trigger] s2[k]) by {
        assert(valid(m, s[k]));
    }
    assert forall|k: int| 0 <= k < s2.len() - 1 implies cell(m, #[trigger] s2[k]).visited by {
        assert(cell(m, s[k]).visited);
    }
    if s2.len() > 0 {
        assert(cell(m, s[s2.len() - 1]).visited);
    }
    assert(fresh_top(m, s2) == 0);
    assert forall|a: Coor| #[trigger] valid(m, a) && claimed(m, s, a) implies claimed(m, s2, a) by {}
    assert forall|a: Coor, b: Coor|
        valid(m, a) && valid(m, b) && #[trigger] adjacent(a, b) && cell(m, a).visited
            && !s2.contains(a) implies claimed(m, s2, b) by {
        if a != t {
            if s.contains(a) {
                let k = choose|k: int| 0 <= k < s.len() && s[k] == a;
                assert(s2[k] == a);
            }
            assert(claimed(m, s, b));
        }
    }
    assert forall|a: Coor| #[trigger] valid(m, a) && a != origin() && claimed(m, s2, a)
        implies exists|i: int| 0 <= i < cell(m, a).dests.len()
            && d[idx(m, #[trigger] cell(m, a).dests[i])] + 1 == d[idx(m, a)] by {
        assert(claimed(m, s, a));
    }
    assert forall|a: Coor| #[trigger] valid(m, a) && !claimed(m, s2, a)
        implies cell(m, a).dests.len() == 0 by {
        assert(!claimed(m, s, a));
    }
}

/// Carving a passage from a visited top `t` into an unvisited neighbour `n`,
/// then pushing `n` one level deeper, keeps the carving invariant.
pub proof fn lemma_carve(m: MazeModel, s: Seq<Coor>, d: Seq<nat>, n: Coor)
    requires
        carving(m, s, d),
        s.len() > 0,
        cell(m, s.last()).visited,
        valid(m, n),
        adjacent(s.last(), n),
        !cell(m, n).visited,
    ensures
        carving(
            link_model(link_model(m, s.last(), n), n, s.last()),
            s.push(n),
            d.update(idx(m, n), d[idx(m, s.last())] + 1),
        ),
{
    let t = s.last();
    let m1 = link_model(m, t, n);
    let m2 = link_model(m1, n, t);
    let s2 = s.push(n);
    let d2 = d.update(idx(m, n), d[idx(m, t)] + 1);
    assert(valid(m, s[s.len() - 1]));
    assert(t != n);
    lemma_index_all(m);
    assert(!claimed(m, s, n));
    assert(cell(m, n).dests.len() == 0);
    assert(!cell(m, n).dests.contains(t));
    assert(cell(m, t).dests.contains(n) <==> cell(m, n).dests.contains(t));
    assert(!cell(m, t).dests.contains(n));
    let vt = SquareModel { visited: true, dests: cell(m, t).dests.push(n) };
    let vn = SquareModel { visited: false, dests: seq![t] };
    assert(cell(m, n).dests.push(t) =~= seq![t]);
    lemma_counts_update(m.cells, idx(m, t), vt);
    lemma_counts_update(m1.cells, idx(m, n), vn);
    assert forall|a: Coor| valid(m, a) implies #[trigger] cell(m2, a)
        == (if a == t { vt } else if a == n { vn } else { cell(m, a) }) by {}
    assert(fresh_top(m, s) == 0);
    assert(fresh_top(m2, s2) == 1);
    // no cell but `t` had a passage to `n`
    assert forall|a: Coor| valid(m, a) implies !(#[trigger] cell(m, a).dests.contains(n)) by {
        assert(!cell(m, n).dests.contains(a));
    }
    assert(d[idx(m, origin())] == 0);
    assert(cell(m, origin()).visited);
    assert forall|a: Coor| #[trigger] valid(m2, a) implies {
        &&& cell(m2, a).dests.no_duplicates()
        &&& forall|i: int| 0 <= i < cell(m2, a).dests.len()
            ==> valid(m2, #[trigger] cell(m2, a).dests[i]) && adjacent(a, cell(m2, a).dests[i])
    } by {
        assert(valid(m, a));
        assert forall|i: int| 0 <= i < cell(m2, a).dests.len()
            implies valid(m2, #[trigger] cell(m2, a).dests[i]) && adjacent(a, cell(m2, a).dests[i]) by {
            if a == t && i == cell(m, t).dests.len() {
            } else if a != n {
                assert(valid(m, cell(m, a).dests[i]));
            }
        }
    }
    assert forall|a: Coor, b: Coor| valid(m2, a) && valid(m2, b)
        implies (#[trigger] cell(m2, a).dests.contains(b) <==> #[trigger] cell(m2, b).dests.contains(a)) by {
        assert(valid(m, a) && valid(m, b));
        assert(cell(m, a).dests.contains(b) <==> cell(m, b).dests.contains(a));
        if a == n {
            assert(seq![t][0] == t);
            assert(cell(m2, a).dests.contains(b) <==> b == t);
            assert(!cell(m, b).dests.contains(n));
        }
        if b == n {
            assert(seq![t][0] == t);
            assert(cell(m2, b).dests.contains(a) <==> a == t);
            assert(!cell(m, a).dests.contains(n));
        }
        if a == t {
            vstd::seq_lib::lemma_seq_contains_after_push(cell(m, t).dests, n, b);
            assert(cell(m2, a).dests.contains(b) <==> cell(m, a).dests.contains(b) || b == n);
        }
        if b == t {
            vstd::seq_lib::lemma_seq_contains_after_push(cell(m, t).dests, n, a);
            assert(cell(m2, b).dests.contains(a) <==> cell(m, b).dests.contains(a) || a == n);
        }
    }
    assert(s2.no_duplicates()) by {
        assert forall|k: int| 0 <= k < s.len() implies s[k] != n by {
            if k < s.len() - 1 {
                assert(cell(m, s[k]).visited);
            }
        }
    }
    assert forall|k: int| 0 <= k < s2.len() implies valid(m2, #[trigger] s2[k]) by {
        if k < s.len() {
            assert(valid(m, s[k]));
        }
    }
    assert forall|k: int| 0 <= k < s2.len() - 1 implies cell(m2, #[trigger] s2[k]).visited by {
        assert(valid(m, s[k]));
        if k < s.len() - 1 {
            assert(cell(m, s[k]).visited);
        }
    }
    assert forall|a: Coor| #[trigger] valid(m2, a) && !claimed(m2, s2, a)
        implies cell(m2, a).dests.len() == 0 by {
        assert(valid(m, a));
        assert(!claimed(m, s, a));
    }
    assert forall|a: Coor, b: Coor|
        valid(m2, a) && valid(m2, b) && #[trigger] adjacent(a, b) && cell(m2, a).visited
            && !s2.contains(a) implies claimed(m2, s2, b) by {
        assert(valid(m, a) && valid(m, b));
        assert(s2[s2.len() - 1] == n);
        if s.contains(a) {
            let k = choose|k: int| 0 <= k < s.len() && s[k] == a;
            assert(s2[k] == a);
        }
        assert(claimed(m, s, b));
    }
    assert forall|a: Coor, i: int| valid(m2, a) && 0 <= i < cell(m2, a).dests.len() implies {
        let e = #[trigger] cell(m2, a).dests[i];
        d2[idx(m2, e)] + 1 == d2[idx(m2, a)] || d2[idx(m2, e)] == d2[idx(m2, a)] + 1
    } by {
        assert(valid(m, a));
        if a == n {
        } else if a == t && i == cell(m, t).dests.len() {
        } else {
            let e = cell(m, a).dests[i];
            assert(cell(m, a).dests.contains(e));
            assert(valid(m, e));
            assert(e != n);
        }
    }
    assert forall|a: Coor| #[trigger] valid(m2, a) && a != origin() && claimed(m2, s2, a)
        implies exists|i: int| 0 <= i < cell(m2, a).dests.len()
            && d2[idx(m2, #[trigger] cell(m2, a).dests[i])] + 1 == d2[idx(m2, a)] by {
        assert(valid(m, a));
        if a == n {
            assert(cell(m2, a).dests[0] == t);
        } else {
            assert(claimed(m, s, a));
            let i = choose|i: int| 0 <= i < cell(m, a).dests.len()
                && d[idx(m, #[trigger] cell(m, a).dests[i])] + 1 == d[idx(m, a)];
            let e = cell(m, a).dests[i];
            assert(cell(m, a).dests.contains(e));
            assert(valid(m, e));
            assert(cell(m2, a).dests[i] == e);
        }
    }
    assert forall|a: Coor, i: int, j: int|
        valid(m2, a) && 0 <= i < cell(m2, a).dests.len() && 0 <= j < cell(m2, a).dests.len()
            && d2[idx(m2, #[trigger] cell(m2, a).dests[i])] + 1 == d2[idx(m2, a)]
            && d2[idx(m2, #[trigger] cell(m2, a).dests[j])] + 1 == d2[idx(m2, a)] implies i == j by {
        assert(valid(m, a));
        if a != n {
            let k = cell(m, a).dests.len();
            if i < k {
                assert(cell(m, a).dests.contains(cell(m, a).dests[i]));
                assert(valid(m, cell(m, a).dests[i]));
            }
            if j < k {
                assert(cell(m, a).dests.contains(cell(m, a).dests[j]));
                assert(valid(m, cell(m, a).dests[j]));
            }
        }
    }
    assert(carving(m2, s2, d2));
}

/// A grid without visits or passages counts zero of both.
pub proof fn lemma_fresh_counts(cells: Seq<SquareModel>)
    requires
        forall|i: int| 0 <= i < cells.len()
            ==> !(#[trigger] cells[i]).visited && cells[i].dests.len() == 0,
    ensures
        visited_count(cells) == 0,
        degree_sum(cells) == 0,
    decreases cells.len(),
{
    if cells.len() > 0 {
        assert(!cells[cells.len() - 1].visited);
        assert forall|i: int| 0 <= i < cells.drop_last().len()
            implies !(#[trigger] cells.drop_last()[i]).visited
                && cells.drop_last()[i].dests.len() == 0 by {
            assert(!cells[i].visited);
        }
        lemma_fresh_counts(cells.drop_last());
    }
}

/// The carving invariant holds at the start: only the origin on the stack.
pub proof fn lemma_start(m: MazeModel)
    requires
        m.width > 0,
        m.height > 0,
        m.width <= usize::MAX,
        m.height <= usize::MAX,
        m.cells.len() == m.width * m.height,
        fresh(m),
    ensures
        carving(m, seq![origin()], Seq::new(m.cells.len(), |i: int| 0nat)),
{
    let s = seq![origin()];
    let d = Seq::new(m.cells.len(), |i: int| 0nat);
    lemma_index_all(m);
    lemma_fresh_counts(m.cells);
    assert(valid(m, origin()));
    assert forall|a: Coor| #[trigger] valid(m, a)
        implies !cell(m, a).visited && cell(m, a).dests.len() == 0 by {
        assert(!m.cells[idx(m, a)].visited);
    }
    assert forall|a: Coor, b: Coor| valid(m, a) && valid(m, b)
        implies (#[trigger] cell(m, a).dests.contains(b) <==> #[trigger] cell(m, b).dests.contains(a)) by {
        assert(cell(m, a).dests.len() == 0 && cell(m, b).dests.len() == 0);
    }
    assert(s.no_duplicates());
    assert(carving(m, s, d));
}

/// When visits spread to every neighbour and the origin is visited, so is `(x, y)`.
proof fn lemma_reach(m: MazeModel, x: usize, y: usize)
    requires
        valid(m, (x, y)),
        cell(m, origin()).visited,
        forall|a: Coor, b: Coor|
            valid(m, a) && valid(m, b) && #[trigger] adjacent(a, b) && cell(m, a).visited
                ==> cell(m, b).visited,
    ensures
        cell(m, (x, y)).visited,
    decreases x + y,
{
    if x > 0 {
        lemma_reach(m, (x - 1) as usize, y);
        assert(adjacent(((x - 1) as usize, y), (x, y)));
    } else if y > 0 {
        lemma_reach(m, x, (y - 1) as usize);
        assert(adjacent((x, (y - 1) as usize), (x, y)));
    }
}

/// When the stack is empty the carving has made a perfect maze.
pub proof fn lemma_finish(m: MazeModel, d: Seq<nat>)
    requires
        carving(m, Seq::empty(), d),
        m.width > 0,
        m.height > 0,
    ensures
        perfect(m),
{
    let s = Seq::<Coor>::empty();
    assert(cell(m, origin()).visited);
    assert forall|a: Coor, b: Coor|
        valid(m, a) && valid(m, b) && #[trigger] adjacent(a, b) && cell(m, a).visited
            implies cell(m, b).visited by {
        assert(!s.contains(a));
        assert(claimed(m, s, b));
    }
    assert forall|a: Coor| #[trigger] valid(m, a) implies cell(m, a).visited by {
        lemma_reach(m, a.0, a.1);
    }
    lemma_index_all(m);
    assert forall|i: int| 0 <= i < m.cells.len() implies (#[trigger] m.cells[i]).visited by {
        let w = m.width as int;
        let x = i % w;
        let y = i / w;
        assert(i == x + y * w && 0 <= x < w) by (nonlinear_arith)
            requires w > 0, 0 <= i, x == i % w, y == i / w;
        assert(y < m.height) by (nonlinear_arith)
            requires w > 0, 0 <= i < w * m.height, y == i / w, i == x + y * w, 0 <= x < w;
        let a = (x as usize, y as usize);
        assert(valid(m, a));
        assert(idx(m, a) == i);
    }
    lemma_visited_count_bound(m.cells);
    assert(fresh_top(m, s) == 0);
    assert forall|a: Coor| #[trigger] valid(m, a) && a != origin()
        implies exists|i: int| 0 <= i < cell(m, a).dests.len()
            && d[idx(m, #[trigger] cell(m, a).dests[i])] + 1 == d[idx(m, a)] by {
        assert(claimed(m, s, a));
    }
    assert(layered(m, d));
}

/// Where the carving stands: the grid, the stack, and how many choices it has used.
pub ghost struct Carving {
    pub maze: MazeModel,
    pub stack: Seq<Coor>,
    pub used: nat,
}

/// The `j`-th number of a script, or 0 past its end.
pub open spec fn pick_of(picks: Seq<usize>, j: nat) -> nat {
    if j < picks.len() { picks[j as int] as nat } else { 0 }
}

/// The cells of `m` not yet visited.
pub open spec fn unvisited(m: MazeModel) -> spec_fn(Coor) -> bool {
    |e: Coor| !cell(m, e).visited
}

/// One step of the carving, its choice read from `picks`: mark the top
/// visited; with no unvisited neighbour pop it, else carve into the chosen
/// unvisited neighbour and push that.
pub open spec fn step(c: Carving, picks: Seq<usize>) -> Carving {
    if c.stack.len() == 0 {
        c
    } else {
        let t = c.stack.last();
        let m1 = visit_model(c.maze, t);
        let options = neighbor_seq(m1, t).filter(unvisited(m1));
        if options.len() == 0 {
            Carving { maze: m1, stack: c.stack.drop_last(), used: c.used }
        } else {
            let n = options[(pick_of(picks, c.used) % options.len()) as int];
            Carving {
                maze: link_model(link_model(m1, t, n), n, t),
                stack: c.stack.push(n),
                used: c.used + 1,
            }
        }
    }
}

/// `k` steps of the carving.
pub open spec fn steps(c: Carving, picks: Seq<usize>, k: nat) -> Carving
    decreases k,
{
    if k == 0 {
        c
    } else {
        step(steps(c, picks, (k - 1) as nat), picks)
    }
}

/// A new `w` by `h` grid with only the origin on the stack.
pub open spec fn start(w: nat, h: nat) -> Carving {
    Carving {
        maze: MazeModel {
            width: w,
            height: h,
            cells: Seq::new(w * h, |i: int| SquareModel { visited: false, dests: Seq::empty() }),
        },
        stack: seq![origin()],
        used: 0,
    }
}

/// The maze that carving a new `w` by `h` grid makes from the choices `picks`.
pub open spec fn carved(w: nat, h: nat, picks: Seq<usize>) -> MazeModel {
    steps(start(w, h), picks, 3 * w * h + 3).maze
}

/// Once the stack is empty, further steps change nothing.
pub proof fn lemma_steps_settle(c: Carving, picks: Seq<usize>, n: nat, k: nat)
    requires
        steps(c, picks, n).stack.len() == 0,
        n <= k,
    ensures
        steps(c, picks, k) == steps(c, picks, n),
    decreases k,
{
    if k > n {
        lemma_steps_settle(c, picks, n, (k - 1) as nat);
    }
}

/// Carving is determined by its choices: two new grids of the same size,
/// carved with the same choices, end up as the same maze.
pub proof fn lemma_deterministic(w: nat, h: nat, picks: Seq<usize>, a: MazeModel, b: MazeModel)
    requires
        a == carved(w, h, picks),
        b == carved(w, h, picks),
    ensures
        a == b,
{
}

} // verus!
