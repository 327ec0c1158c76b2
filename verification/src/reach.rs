//! Reachability over a grid: which cells a vessel can get to, and in how
//! many unit steps. These specifications are the ground truth that the
//! breadth-first search is proved against.

use crate::grid::GridModel;
use vstd::prelude::*;

verus! {

/// `b` lies one cardinal step away from `a`.
pub open spec fn adjacent(a: (int, int), b: (int, int)) -> bool {
    ||| (b.0 == a.0 && b.1 == a.1 + 1)
    ||| (b.0 == a.0 && b.1 == a.1 - 1)
    ||| (b.0 == a.0 + 1 && b.1 == a.1)
    ||| (b.0 == a.0 - 1 && b.1 == a.1)
}

/// There is a path of at most `n` unit steps from `src` to `p` that stays on
/// passable cells throughout (both endpoints included).
pub open spec fn reach_within(m: GridModel, src: (int, int), p: (int, int), n: nat) -> bool
    decreases n,
{
    m.passable(p.0, p.1) && (p == src || (n > 0 && exists|q: (int, int)|
        adjacent(q, p) && reach_within(m, src, q, (n - 1) as nat)))
}

/// Some path of passable cells leads from `src` to `p`.
pub open spec fn reachable(m: GridModel, src: (int, int), p: (int, int)) -> bool {
    exists|n: nat| reach_within(m, src, p, n)
}

/// `d` is the length of a shortest path from `src` to `p`: a path of length
/// `d` exists and no strictly shorter one does.
pub open spec fn is_shortest(m: GridModel, src: (int, int), p: (int, int), d: nat) -> bool {
    reach_within(m, src, p, d) && (d == 0 || !reach_within(m, src, p, (d - 1) as nat))
}

/// A path bound is monotone: a path of at most `n` steps is also a path of
/// at most `n2 >= n` steps.
pub proof fn lemma_reach_mono(m: GridModel, src: (int, int), p: (int, int), n: nat, n2: nat)
    requires
        reach_within(m, src, p, n),
        n <= n2,
    ensures
        reach_within(m, src, p, n2),
    decreases n,
{
    if p != src {
        if n > 0 {
            let q = choose|q: (int, int)| adjacent(q, p) && reach_within(m, src, q, (n - 1) as nat);
            lemma_reach_mono(m, src, q, (n - 1) as nat, (n2 - 1) as nat);
        }
    }
}

/// Extending a path by one step to a passable neighbour.
pub proof fn lemma_reach_step(m: GridModel, src: (int, int), q: (int, int), p: (int, int), n: nat)
    requires
        reach_within(m, src, q, n),
        adjacent(q, p),
        m.passable(p.0, p.1),
    ensures
        reach_within(m, src, p, n + 1),
{
}

/// The shortest distance to a cell is unique.
pub proof fn lemma_shortest_unique(
    m: GridModel,
    src: (int, int),
    p: (int, int),
    d1: nat,
    d2: nat,
)
    requires
        is_shortest(m, src, p, d1),
        is_shortest(m, src, p, d2),
    ensures
        d1 == d2,
{
    if d1 < d2 {
        lemma_reach_mono(m, src, p, d1, (d2 - 1) as nat);
    }
    if d2 < d1 {
        lemma_reach_mono(m, src, p, d2, (d1 - 1) as nat);
    }
}

/// The length of a shortest path from `src` to `p` — meaningful once some
/// path exists at all.
pub open spec fn shortest_dist(m: GridModel, src: (int, int), p: (int, int)) -> int {
    (choose|d: nat| is_shortest(m, src, p, d)) as int
}

/// A reachable cell has a shortest distance.
pub proof fn lemma_reachable_has_shortest(m: GridModel, src: (int, int), p: (int, int), n: nat)
    requires
        reach_within(m, src, p, n),
    ensures
        exists|d: nat| d <= n && #[trigger] is_shortest(m, src, p, d),
    decreases n,
{
    if n > 0 && reach_within(m, src, p, (n - 1) as nat) {
        lemma_reachable_has_shortest(m, src, p, (n - 1) as nat);
        let d = choose|d: nat| d <= n - 1 && #[trigger] is_shortest(m, src, p, d);
        assert(d <= n && is_shortest(m, src, p, d));
    } else {
        assert(n <= n && is_shortest(m, src, p, n));
    }
}

/// `shortest_dist` returns the one witness of `is_shortest`.
pub proof fn lemma_shortest_dist_is(m: GridModel, src: (int, int), p: (int, int), d: nat)
    requires
        is_shortest(m, src, p, d),
    ensures
        shortest_dist(m, src, p) == d,
{
    let c = choose|dd: nat| is_shortest(m, src, p, dd);
    assert(is_shortest(m, src, p, c));
    lemma_shortest_unique(m, src, p, c, d);
}

/// A cell other than the source all of whose neighbours are impassable
/// (fully enclosed by land or by the map edge) cannot be reached: every path
/// would have to take its last step from a passable neighbour.
pub proof fn lemma_enclosed_cell_unreachable(m: GridModel, src: (int, int), p: (int, int))
    requires
        p != src,
        forall|q: (int, int)| adjacent(q, p) ==> !m.passable(q.0, q.1),
    ensures
        !reachable(m, src, p),
{
    assert forall|n: nat| !reach_within(m, src, p, n) by {
        if reach_within(m, src, p, n) {
            let q = choose|q: (int, int)| adjacent(q, p) && reach_within(m, src, q, (n - 1) as nat);
            assert(m.passable(q.0, q.1));
        }
    }
}

/// The length of the L-shaped walk between two cells.
pub open spec fn manhattan(a: (int, int), b: (int, int)) -> int {
    (if a.0 >= b.0 {
        a.0 - b.0
    } else {
        b.0 - a.0
    }) + (if a.1 >= b.1 {
        a.1 - b.1
    } else {
        b.1 - a.1
    })
}

/// On a map without land, every in-bounds cell can be reached from every
/// in-bounds cell: walk the row first, then the column.
pub proof fn lemma_open_water_reachable(m: GridModel, src: (int, int), p: (int, int))
    requires
        forall|x: int, y: int| m.in_bounds(x, y) ==> m.passable(x, y),
        m.in_bounds(src.0, src.1),
        m.in_bounds(p.0, p.1),
    ensures
        reachable(m, src, p),
    decreases manhattan(src, p),
{
    if p == src {
        assert(reach_within(m, src, p, 0));
    } else {
        let q = if p.0 != src.0 {
            (if p.0 > src.0 {
                p.0 - 1
            } else {
                p.0 + 1
            }, p.1)
        } else {
            (p.0, if p.1 > src.1 {
                p.1 - 1
            } else {
                p.1 + 1
            })
        };
        assert(m.in_bounds(q.0, q.1));
        assert(adjacent(q, p));
        lemma_open_water_reachable(m, src, q);
        let n = choose|n: nat| reach_within(m, src, q, n);
        lemma_reach_step(m, src, q, p, n);
    }
}

} // verus!
