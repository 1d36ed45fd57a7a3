use vstd::prelude::*;
use crate::maze::{MazeModel, cell, idx, layered, origin, passages_sound, perfect, valid};
use crate::square::Coor;

verus! {

/// `p` walks through the maze: every step goes through a passage.
pub open spec fn is_walk(m: MazeModel, p: Seq<Coor>) -> bool {
    &&& p.len() >= 1
    &&& forall|k: int| 0 <= k < p.len() ==> valid(m, #[trigger] p[k])
    &&& forall|k: int| 0 <= k < p.len() - 1 ==> cell(m, #[trigger] p[k]).dests.contains(p[k + 1])
}

/// A closed walk of at least one step that never turns straight back, not
/// even where it closes: what a cycle of the passage graph would give.
pub open spec fn is_cycle(m: MazeModel, p: Seq<Coor>) -> bool {
    &&& is_walk(m, p)
    &&& p.len() >= 3
    &&& p[0] == p.last()
    &&& forall|k: int| 0 <= k < p.len() - 2 ==> #[trigger] p[k] != p[k + 2]
    &&& p[p.len() - 2] != p[1]
}

/// A walk from `a` to the origin, going up one depth level per step.
proof fn walk_to_origin(m: MazeModel, d: Seq<nat>, a: Coor) -> (p: Seq<Coor>)
    requires
        layered(m, d),
        passages_sound(m),
        valid(m, a),
    ensures
        is_walk(m, p),
        p[0] == a,
        p.last() == origin(),
    decreases d[idx(m, a)],
{
    if a == origin() {
        seq![a]
    } else {
        let i = choose|i: int| 0 <= i < cell(m, a).dests.len()
            && d[idx(m, #[trigger] cell(m, a).dests[i])] + 1 == d[idx(m, a)];
        let e = cell(m, a).dests[i];
        assert(valid(m, e));
        let q = walk_to_origin(m, d, e);
        let p = seq![a] + q;
        assert(cell(m, a).dests.contains(e));
        assert forall|k: int| 0 <= k < p.len() - 1
            implies cell(m, #[trigger] p[k]).dests.contains(p[k + 1]) by {
            if k > 0 {
                assert(p[k] == q[k - 1] && p[k + 1] == q[k]);
            }
        }
        assert forall|k: int| 0 <= k < p.len() implies valid(m, #[trigger] p[k]) by {
            if k > 0 {
                assert(p[k] == q[k - 1]);
            }
        }
        p
    }
}

/// In a perfect maze every cell is joined to the origin by a walk through
/// passages: the passages connect the whole grid.
pub proof fn lemma_connected(m: MazeModel, a: Coor)
    requires
        perfect(m),
        valid(m, a),
    ensures
        exists|p: Seq<Coor>| is_walk(m, p) && p[0] == a && p.last() == origin(),
{
    let d = choose|d: Seq<nat>| layered(m, d);
    let p = walk_to_origin(m, d, a);
}

/// A position among the first `n` of `p` whose cell is deepest.
proof fn deepest(d: Seq<nat>, m: MazeModel, p: Seq<Coor>, n: int) -> (i: int)
    requires
        0 < n <= p.len(),
    ensures
        0 <= i < n,
        forall|j: int| 0 <= j < n ==> d[idx(m, #[trigger] p[j])] <= d[idx(m, p[i])],
    decreases n,
{
    if n == 1 {
        0
    } else {
        let i = deepest(d, m, p, n - 1);
        if d[idx(m, p[n - 1])] > d[idx(m, p[i])] { n - 1 } else { i }
    }
}

/// A perfect maze has no cycle: its passages form a tree.
pub proof fn lemma_acyclic(m: MazeModel, p: Seq<Coor>)
    requires
        perfect(m),
    ensures
        !is_cycle(m, p),
{
    if is_cycle(m, p) {
        let d = choose|d: Seq<nat>| layered(m, d);
        let n = p.len() - 1;
        let i = deepest(d, m, p, n);
        let a = p[i];
        let prev = if i == 0 { p[n - 1] } else { p[i - 1] };
        let next = p[i + 1];
        assert(valid(m, a));
        assert(valid(m, p[n - 1]));
        assert(valid(m, prev));
        assert(valid(m, next));
        assert(cell(m, prev).dests.contains(a));
        assert(cell(m, a).dests.contains(prev));
        assert(cell(m, a).dests.contains(next));
        assert(d[idx(m, next)] <= d[idx(m, a)]) by {
            if i + 1 == n {
                assert(next == p[0]);
            }
        }
        let ip = choose|k: int| 0 <= k < cell(m, a).dests.len() && cell(m, a).dests[k] == prev;
        let inx = choose|k: int| 0 <= k < cell(m, a).dests.len() && cell(m, a).dests[k] == next;
        assert(d[idx(m, cell(m, a).dests[ip])] + 1 == d[idx(m, a)]);
        assert(d[idx(m, cell(m, a).dests[inx])] + 1 == d[idx(m, a)]);
        assert(ip == inx);
        if i == 0 {
            assert(p[n - 1] != p[1]);
        } else {
            assert(p[i - 1] != p[i + 1]);
        }
    }
}

} // verus!
