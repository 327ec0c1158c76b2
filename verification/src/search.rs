//! Breadth-first shortest-distance search over a map, proved to return, for
//! every cell, exactly the length of a shortest passable path from the
//! source — and no entry at all for cells that cannot be reached.

use crate::grid::{lemma_index_of_bounds, GridModel, WorldMap};
use crate::reach::{
    adjacent, is_shortest, lemma_reach_mono, lemma_reach_step, lemma_shortest_unique, reach_within,
    reachable,
};
use crate::{Direction, Pos, WorldMapNode, MAX_CELLS};
use vstd::prelude::*;
use vstd::set_lib::{lemma_int_range, lemma_len_subset, set_int_range};

verus! {

/// Model of a search result: one optional distance per flat cell index.
pub ghost struct DistModel {
    pub width: nat,
    pub height: nat,
    pub dist: Seq<Option<usize>>,
}

/// The coordinates that flat index `i` stands for in grid `m`.
pub open spec fn pos_of(m: GridModel, i: int) -> (int, int) {
    (i % (m.width as int), i / (m.width as int))
}

/// The pair of integers behind a [`Pos`].
pub open spec fn ptup(p: Pos) -> (int, int) {
    (p.0 as int, p.1 as int)
}

/// One correct entry: a recorded distance is the unique shortest distance,
/// an absent entry means the cell cannot be reached at all.
pub open spec fn entry_ok(m: GridModel, src: (int, int), i: int, e: Option<usize>) -> bool {
    match e {
        Some(d) => is_shortest(m, src, pos_of(m, i), d as nat),
        None => !reachable(m, src, pos_of(m, i)),
    }
}

/// Everything `shortest_distances` promises about its result.
pub open spec fn distances_correct(m: GridModel, src: (int, int), r: DistModel) -> bool {
    &&& r.width == m.width
    &&& r.height == m.height
    &&& r.dist.len() == m.cells.len()
    &&& forall|i: int| 0 <= i < r.dist.len() ==> entry_ok(m, src, i, #[trigger] r.dist[i])
    &&& forall|i: int|
        0 <= i < r.dist.len() ==> ((#[trigger] r.dist[i]) matches Some(d) ==> d
            < m.cells.len())
}

/// Distance lookup on the model: `None` outside the grid.
pub open spec fn dist_at(r: DistModel, x: int, y: int) -> Option<usize> {
    if 0 <= x < r.width && 0 <= y < r.height {
        r.dist[y * r.width + x]
    } else {
        None
    }
}

/// Per-cell minimum step distances from one source, as produced by
/// [`shortest_distances`]. Transient: holds plain data only.
pub struct SearchResult {
    dist: Vec<Option<usize>>,
    width: usize,
    height: usize,
}

impl View for SearchResult {
    type V = DistModel;

    closed spec fn view(&self) -> DistModel {
        DistModel { width: self.width as nat, height: self.height as nat, dist: self.dist@ }
    }
}

impl SearchResult {
    #[verifier::type_invariant]
    spec fn inv(self) -> bool {
        self@.dist.len() == self@.width * self@.height && self@.width * self@.height <= MAX_CELLS
    }

    /// The recorded distance from the search source to `pos`; `None` for
    /// out-of-bounds and for unreachable positions.
    pub fn distance(&self, pos: Pos) -> (r: Option<usize>)
        ensures
            r == dist_at(self@, pos.0 as int, pos.1 as int),
    {
        proof {
            use_type_invariant(&*self);
        }
        if pos.0 >= 0 && pos.1 >= 0 && (pos.0 as usize) < self.width && (pos.1 as usize)
            < self.height {
            let i = pos.to_index((self.width, self.height));
            self.dist[i]
        } else {
            None
        }
    }
}

/// Flat index of queue element `k`.
spec fn qi(m: GridModel, q: Seq<Pos>, k: int) -> int {
    (q[k].1 as int) * (m.width as int) + (q[k].0 as int)
}

/// Recorded distance of queue element `k`.
spec fn qv(m: GridModel, dist: Seq<Option<usize>>, q: Seq<Pos>, k: int) -> int {
    dist[qi(m, q, k)]->Some_0 as int
}

/// The cell one step in direction `dir` from `p` has been given a distance
/// of at most `d + 1` (when it is passable at all).
spec fn neighbor_fact(m: GridModel, dist: Seq<Option<usize>>, t: (int, int), d: int) -> bool {
    let ti = t.1 * (m.width as int) + t.0;
    &&& 0 <= ti < dist.len()
    &&& dist[ti] is Some
    &&& dist[ti]->Some_0 <= d + 1
}

spec fn neighbor_done(m: GridModel, dist: Seq<Option<usize>>, p: Pos, dir: Direction, d: int) -> bool {
    let t = ((p.0 as int) + dir.offset().0, (p.1 as int) + dir.offset().1);
    m.passable(t.0, t.1) ==> neighbor_fact(m, dist, t, d)
}

/// The breadth-first loop invariant, over the ghost state of the distance
/// array, the queue, and how much of the queue has been processed.
spec fn bfs_inv(
    m: GridModel,
    s: (int, int),
    dist: Seq<Option<usize>>,
    queue: Seq<Pos>,
    qhead: int,
) -> bool {
    &&& m.wf()
    &&& dist.len() == m.cells.len()
    &&& 0 <= qhead <= queue.len() <= m.cells.len()
    &&& queue.len() >= 1
    &&& ptup(queue[0]) == s
    &&& 0 <= qi(m, queue, 0) < dist.len()
    &&& dist[qi(m, queue, 0)] == Some(0usize)
    // every queued position is a passable in-bounds cell
    &&& forall|k: int|
        0 <= k < queue.len() ==> m.in_bounds((#[trigger] queue[k]).0 as int, queue[k].1 as int)
            && m.passable(queue[k].0 as int, queue[k].1 as int)
    // every queued index lies inside the distance array
    &&& forall|k: int| 0 <= k < queue.len() ==> 0 <= #[trigger] qi(m, queue, k) < dist.len()
    // every queued position has a recorded distance
    &&& forall|k: int| 0 <= k < queue.len() ==> dist[#[trigger] qi(m, queue, k)] is Some
    // no cell is queued twice
    &&& forall|k1: int, k2: int|
        0 <= k1 < k2 < queue.len() ==> qi(m, queue, k1) != qi(m, queue, k2)
    // a queued distance never exceeds its queue position
    &&& forall|k: int| 0 <= k < queue.len() ==> #[trigger] qv(m, dist, queue, k) <= k
    // queued distances are sorted
    &&& forall|k1: int, k2: int|
        0 <= k1 <= k2 < queue.len() ==> qv(m, dist, queue, k1) <= qv(m, dist, queue, k2)
    // at most two frontier levels are in flight
    &&& (qhead < queue.len() ==> forall|k: int|
        0 <= k < queue.len() ==> #[trigger] qv(m, dist, queue, k) <= qv(m, dist, queue, qhead)
            + 1)
    // every recorded cell is queued
    &&& forall|i: int|
        0 <= i < dist.len() && (#[trigger] dist[i]) is Some ==> exists|k: int|
            0 <= k < queue.len() && qi(m, queue, k) == i
    // every recorded distance is realized by a path
    &&& forall|i: int|
        0 <= i < dist.len() && (#[trigger] dist[i]) is Some ==> reach_within(
            m,
            s,
            pos_of(m, i),
            dist[i]->Some_0 as nat,
        )
    // processed cells have all passable neighbours recorded, one level deeper at most
    &&& forall|k: int, t: (int, int)|
        0 <= k < qhead && #[trigger] adjacent(ptup(queue[k]), t) && m.passable(t.0, t.1)
            ==> neighbor_fact(m, dist, t, qv(m, dist, queue, k))
}

/// A queue of pairwise distinct in-bounds cells cannot outgrow the grid.
proof fn lemma_queue_len(m: GridModel, queue: Seq<Pos>)
    requires
        m.wf(),
        forall|k: int|
            0 <= k < queue.len() ==> m.in_bounds((#[trigger] queue[k]).0 as int, queue[k].1 as int),
        forall|k1: int, k2: int|
            0 <= k1 < k2 < queue.len() ==> qi(m, queue, k1) != qi(m, queue, k2),
    ensures
        queue.len() <= m.cells.len(),
{
    let n = m.cells.len() as int;
    let idxs = Seq::new(queue.len(), |k: int| qi(m, queue, k));
    assert forall|k: int| 0 <= k < idxs.len() implies 0 <= #[trigger] idxs[k] < n by {
        lemma_index_of_bounds(m, queue[k].0 as int, queue[k].1 as int);
    }
    assert(idxs.no_duplicates());
    idxs.unique_seq_to_set();
    let range = set_int_range(0, n);
    lemma_int_range(0, n);
    assert(idxs.to_set().subset_of(range)) by {
        assert forall|x: int| idxs.to_set().contains(x) implies range.contains(x) by {
            let k = choose|k: int| 0 <= k < idxs.len() && idxs[k] == x;
        }
    }
    lemma_len_subset(idxs.to_set(), range);
}

/// After the queue is exhausted, every cell reachable in `n` steps carries a
/// recorded distance of at most `n`.
proof fn lemma_bfs_minimal(
    m: GridModel,
    s: (int, int),
    dist: Seq<Option<usize>>,
    queue: Seq<Pos>,
    p: (int, int),
    n: nat,
)
    requires
        bfs_inv(m, s, dist, queue, queue.len() as int),
        reach_within(m, s, p, n),
    ensures
        ({
            let pi = p.1 * (m.width as int) + p.0;
            &&& 0 <= pi < dist.len()
            &&& dist[pi] is Some
            &&& dist[pi]->Some_0 <= n
        }),
    decreases n,
{
    assert(m.passable(p.0, p.1));
    assert(m.in_bounds(p.0, p.1));
    lemma_index_of_bounds(m, p.0, p.1);
    let pi = p.1 * (m.width as int) + p.0;
    if p == s {
        assert(qi(m, queue, 0) == pi);
    } else {
        let q = choose|q: (int, int)| adjacent(q, p) && reach_within(m, s, q, (n - 1) as nat);
        lemma_bfs_minimal(m, s, dist, queue, q, (n - 1) as nat);
        let qidx = q.1 * (m.width as int) + q.0;
        let k = choose|k: int| 0 <= k < queue.len() && qi(m, queue, k) == qidx;
        lemma_index_of_bounds(m, q.0, q.1);
        lemma_index_of_bounds(m, queue[k].0 as int, queue[k].1 as int);
        assert(ptup(queue[k]) == q) by {
            vstd::arithmetic::div_mod::lemma_fundamental_div_mod_converse(
                qidx,
                m.width as int,
                q.1,
                q.0,
            );
            vstd::arithmetic::div_mod::lemma_fundamental_div_mod_converse(
                qi(m, queue, k),
                m.width as int,
                queue[k].1 as int,
                queue[k].0 as int,
            );
        }
        assert(adjacent(ptup(queue[k]), p));
        assert(neighbor_fact(m, dist, p, qv(m, dist, queue, k)));
        assert(qv(m, dist, queue, k) <= n - 1);
    }
}

/// Handles one neighbour of the cell under processing: records distance
/// `dcur + 1` for it if it is passable and not yet recorded.
fn relax(
    map: &WorldMap,
    dist: &mut Vec<Option<usize>>,
    queue: &mut Vec<Pos>,
    qhead: usize,
    dcur: usize,
    dir: Direction,
    Ghost(s): Ghost<(int, int)>,
)
    requires
        bfs_inv(map@, s, old(dist)@, old(queue)@, qhead as int),
        qhead < old(queue)@.len(),
        old(dist)@[qi(map@, old(queue)@, qhead as int)] == Some(dcur),
    ensures
        bfs_inv(map@, s, final(dist)@, final(queue)@, qhead as int),
        final(dist)@.len() == old(dist)@.len(),
        final(queue)@.len() >= old(queue)@.len(),
        forall|k: int| 0 <= k < old(queue)@.len() ==> final(queue)@[k] == old(queue)@[k],
        forall|i: int|
            0 <= i < final(dist)@.len() && old(dist)@[i] is Some ==> final(dist)@[i] == old(
                dist,
            )@[i],
        forall|i: int|
            0 <= i < final(dist)@.len() && (#[trigger] final(dist)@[i]) is Some ==> (old(
                dist,
            )@[i] is Some || final(dist)@[i] == Some((dcur + 1) as usize)),
        neighbor_done(map@, final(dist)@, old(queue)@[qhead as int], dir, dcur as int),
        final(dist)@[qi(map@, final(queue)@, qhead as int)] == Some(dcur),
{
    let ghost m = map@;
    let ghost dist0 = dist@;
    let ghost queue0 = queue@;
    let p = queue[qhead];
    proof {
        use_type_invariant(map);
        lemma_index_of_bounds(m, p.0 as int, p.1 as int);
        assert(qv(m, dist0, queue0, qhead as int) == dcur);
        assert(dcur <= qhead);
        // the grid is nonempty, so both dimensions fit comfortably in i32
        assert(m.width >= 1 && m.height >= 1);
        assert(m.width <= MAX_CELLS && m.height <= MAX_CELLS) by (nonlinear_arith)
            requires
                m.width * m.height <= MAX_CELLS,
                m.width >= 1,
                m.height >= 1,
        ;
    }
    let w = map.width();
    let h = map.height();
    let np = dir.to_pos(&p);
    if np.0 >= 0 && np.1 >= 0 && (np.0 as usize) < w && (np.1 as usize) < h {
        let ni = np.to_index((w, h));
        proof {
            lemma_index_of_bounds(m, np.0 as int, np.1 as int);
        }
        let c = map.cell_at_index(ni);
        match c {
            WorldMapNode::Land => {
                proof {
                    assert(!m.passable(np.0 as int, np.1 as int));
                }
            },
            _ => {
                proof {
                    assert(m.passable(np.0 as int, np.1 as int));
                }
                if dist[ni].is_none() {
                    dist.set(ni, Some(dcur + 1));
                    queue.push(np);
                    proof {
                        let distn = dist@;
                        let queuen = queue@;
                        let newk = queue0.len() as int;
                        assert(queuen.len() == queue0.len() + 1);
                        assert(queuen[newk] == np);
                        assert(qi(m, queuen, newk) == ni);
                        // distinctness: ni was unrecorded, every queued index was recorded
                        assert forall|k: int| 0 <= k < queue0.len() implies qi(m, queuen, k)
                            != ni by {
                            assert(queuen[k] == queue0[k]);
                            assert(dist0[qi(m, queue0, k)] is Some);
                        }
                        // previously queued entries keep index and value
                        assert forall|k: int| 0 <= k < queue0.len() implies qi(m, queuen, k) == qi(
                            m,
                            queue0,
                            k,
                        ) && distn[qi(m, queuen, k)] == dist0[qi(m, queue0, k)] by {
                            assert(queuen[k] == queue0[k]);
                            assert(0 <= qi(m, queue0, k) < dist0.len());
                            assert(qi(m, queue0, k) != ni);
                        }
                        // all queued indices, the new one included, stay in range
                        assert forall|k: int| 0 <= k < queuen.len() implies 0 <= #[trigger] qi(
                            m,
                            queuen,
                            k,
                        ) < distn.len() by {
                            if k < queue0.len() {
                                assert(queuen[k] == queue0[k]);
                            } else {
                                assert(qi(m, queuen, k) == ni);
                            }
                        }
                        lemma_queue_len(m, queuen);
                        // queued distances carry over unchanged ...
                        assert forall|k: int| 0 <= k < queue0.len() implies #[trigger] qv(
                            m,
                            distn,
                            queuen,
                            k,
                        ) == qv(m, dist0, queue0, k) by {
                            assert(queuen[k] == queue0[k]);
                            assert(distn[qi(m, queuen, k)] == dist0[qi(m, queue0, k)]);
                        }
                        // ... and the new entry sits one level below the head
                        assert(qv(m, distn, queuen, newk) == dcur + 1);
                        assert(qv(m, dist0, queue0, qhead as int) == dcur);
                        assert(dcur <= qhead as int);
                        assert forall|k: int| 0 <= k < queuen.len() implies #[trigger] qv(
                            m,
                            distn,
                            queuen,
                            k,
                        ) <= k by {
                            if k < queue0.len() {
                                assert(qv(m, distn, queuen, k) == qv(m, dist0, queue0, k));
                            }
                        }
                        assert forall|k1: int, k2: int|
                            0 <= k1 <= k2 < queuen.len() implies qv(m, distn, queuen, k1) <= qv(
                            m,
                            distn,
                            queuen,
                            k2,
                        ) by {
                            if k2 < queue0.len() {
                                assert(qv(m, dist0, queue0, k1) <= qv(m, dist0, queue0, k2));
                            } else if k1 < queue0.len() {
                                assert(qv(m, dist0, queue0, k1) <= qv(m, dist0, queue0, qhead as int)
                                    + 1);
                            }
                        }
                        assert forall|k: int| 0 <= k < queuen.len() implies #[trigger] qv(
                            m,
                            distn,
                            queuen,
                            k,
                        ) <= qv(m, distn, queuen, qhead as int) + 1 by {
                            assert(qv(m, distn, queuen, qhead as int) == dcur);
                            if k < queue0.len() {
                                assert(qv(m, dist0, queue0, k) <= qv(m, dist0, queue0, qhead as int)
                                    + 1);
                            }
                        }
                        // soundness of the new entry
                        assert(reach_within(m, s, pos_of(m, qi(m, queue0, qhead as int)), dcur as nat));
                        assert(ptup(p) == pos_of(m, qi(m, queue0, qhead as int))) by {
                            vstd::arithmetic::div_mod::lemma_fundamental_div_mod_converse(
                                qi(m, queue0, qhead as int),
                                m.width as int,
                                p.1 as int,
                                p.0 as int,
                            );
                        }
                        assert(adjacent(ptup(p), ptup(np)));
                        lemma_reach_step(m, s, ptup(p), ptup(np), dcur as nat);
                        assert(pos_of(m, ni as int) == ptup(np)) by {
                            vstd::arithmetic::div_mod::lemma_fundamental_div_mod_converse(
                                ni as int,
                                m.width as int,
                                np.1 as int,
                                np.0 as int,
                            );
                        }
                        assert(reach_within(m, s, pos_of(m, ni as int), (dcur + 1) as nat));
                        // closure facts survive: only an unrecorded cell gained a value
                        assert forall|k: int, t: (int, int)|
                            0 <= k < qhead as int && #[trigger] adjacent(ptup(queuen[k]), t)
                                && m.passable(t.0, t.1) implies neighbor_fact(
                            m,
                            distn,
                            t,
                            qv(m, distn, queuen, k),
                        ) by {
                            assert(queuen[k] == queue0[k]);
                            assert(neighbor_fact(m, dist0, t, qv(m, dist0, queue0, k)));
                        }
                        assert(bfs_inv(m, s, distn, queuen, qhead as int));
                    }
                } else {
                    proof {
                        // already recorded: the two-level invariant bounds its value
                        let i = choose|k: int|
                            0 <= k < queue0.len() && qi(m, queue0, k) == ni as int;
                        assert(qv(m, dist0, queue0, i) <= qv(m, dist0, queue0, qhead as int) + 1);
                        assert(neighbor_fact(m, dist0, ptup(np), dcur as int));
                    }
                }
            },
        }
    } else {
        proof {
            // out of bounds in some direction: the neighbour cell reads as land
            assert(!m.in_bounds(np.0 as int, np.1 as int));
            assert(!m.passable(np.0 as int, np.1 as int));
        }
    }
}

/// Breadth-first search from `source` over the passable cells of `map`.
///
/// The result records, for every cell of the grid, the exact length of a
/// shortest path of unit steps from `source` (0 for the source itself), and
/// records nothing for cells no such path reaches. The distances are a
/// function of map and source alone: no traversal order shows through.
pub fn shortest_distances(map: &WorldMap, source: Pos) -> (r: SearchResult)
    requires
        map@.passable(source.0 as int, source.1 as int),
    ensures
        distances_correct(map@, ptup(source), r@),
{
    let ghost m = map@;
    let ghost s = ptup(source);
    proof {
        use_type_invariant(map);
        assert(m.in_bounds(source.0 as int, source.1 as int));
    }
    let w = map.width();
    let h = map.height();
    proof {
        assert(m.width * m.height <= MAX_CELLS);
        assert((w as int) * (h as int) == m.cells.len());
    }
    let n = w * h;
    let mut dist: Vec<Option<usize>> = Vec::new();
    while dist.len() < n
        invariant
            dist@.len() <= n,
            forall|i: int| 0 <= i < dist@.len() ==> #[trigger] dist@[i] is None,
        decreases n - dist@.len(),
    {
        dist.push(None);
    }
    let src_idx = source.to_index((w, h));
    dist.set(src_idx, Some(0));
    let mut queue: Vec<Pos> = Vec::new();
    queue.push(source);
    let mut qhead: usize = 0;
    proof {
        lemma_index_of_bounds(m, source.0 as int, source.1 as int);
        assert(qi(m, queue@, 0) == src_idx as int);
        assert(pos_of(m, src_idx as int) == s) by {
            vstd::arithmetic::div_mod::lemma_fundamental_div_mod_converse(
                src_idx as int,
                m.width as int,
                source.1 as int,
                source.0 as int,
            );
        }
        assert(reach_within(m, s, s, 0));
        assert(bfs_inv(m, s, dist@, queue@, 0));
    }
    while qhead < queue.len()
        invariant
            m == map@,
            bfs_inv(m, s, dist@, queue@, qhead as int),
            n == m.cells.len(),
            w == m.width,
            h == m.height,
        decreases n - qhead,
    {
        let ghost dist0 = dist@;
        let ghost queue0 = queue@;
        let ghost k0 = qhead as int;
        let p = queue[qhead];
        let pi = p.to_index((w, h));
        proof {
            lemma_index_of_bounds(m, p.0 as int, p.1 as int);
            assert(pi as int == qi(m, queue0, k0));
        }
        let dcur = dist[pi].unwrap();
        relax(map, &mut dist, &mut queue, qhead, dcur, Direction::North, Ghost(s));
        relax(map, &mut dist, &mut queue, qhead, dcur, Direction::South, Ghost(s));
        relax(map, &mut dist, &mut queue, qhead, dcur, Direction::East, Ghost(s));
        relax(map, &mut dist, &mut queue, qhead, dcur, Direction::West, Ghost(s));
        proof {
            let distn = dist@;
            let queuen = queue@;
            assert(neighbor_done(m, distn, p, Direction::North, dcur as int));
            assert(neighbor_done(m, distn, p, Direction::South, dcur as int));
            assert(neighbor_done(m, distn, p, Direction::East, dcur as int));
            assert(neighbor_done(m, distn, p, Direction::West, dcur as int));
            assert(queuen[k0] == p);
            assert(qv(m, distn, queuen, k0) == dcur);
            // all four neighbours of the processed cell are now covered
            assert forall|k: int, t: (int, int)|
                0 <= k < k0 + 1 && #[trigger] adjacent(ptup(queuen[k]), t) && m.passable(
                    t.0,
                    t.1,
                ) implies neighbor_fact(m, distn, t, qv(m, distn, queuen, k)) by {
                if k < k0 {
                } else {
                    assert(ptup(queuen[k]) == ptup(p));
                    let a = ptup(p);
                    if t.0 == a.0 && t.1 == a.1 + 1 {
                        assert(neighbor_done(m, distn, p, Direction::North, dcur as int));
                    } else if t.0 == a.0 && t.1 == a.1 - 1 {
                        assert(neighbor_done(m, distn, p, Direction::South, dcur as int));
                    } else if t.0 == a.0 + 1 && t.1 == a.1 {
                        assert(neighbor_done(m, distn, p, Direction::East, dcur as int));
                    } else {
                        assert(t.0 == a.0 - 1 && t.1 == a.1);
                        assert(neighbor_done(m, distn, p, Direction::West, dcur as int));
                    }
                }
            }
            // moving the head one on: the two-level bound shifts with it
            if k0 + 1 < queuen.len() {
                assert(qv(m, distn, queuen, k0) <= qv(m, distn, queuen, k0 + 1));
            }
            assert(bfs_inv(m, s, distn, queuen, k0 + 1));
        }
        qhead = qhead + 1;
    }
    proof {
        let distn = dist@;
        let queuen = queue@;
        assert forall|i: int| 0 <= i < distn.len() implies entry_ok(m, s, i, #[trigger] distn[i]) by {
            let pp = pos_of(m, i);
            assert(m.width >= 1);
            vstd::arithmetic::div_mod::lemma_fundamental_div_mod(i, m.width as int);
            assert((i / (m.width as int)) * (m.width as int) == (m.width as int) * (i / (m.width
                as int))) by (nonlinear_arith);
            assert(pp.1 * (m.width as int) + pp.0 == i);
            match distn[i] {
                Some(d) => {
                    assert(reach_within(m, s, pp, d as nat));
                    if d > 0 && reach_within(m, s, pp, (d - 1) as nat) {
                        lemma_bfs_minimal(m, s, distn, queuen, pp, (d - 1) as nat);
                    }
                    assert(is_shortest(m, s, pp, d as nat));
                },
                None => {
                    if reachable(m, s, pp) {
                        let nn = choose|nn: nat| reach_within(m, s, pp, nn);
                        lemma_bfs_minimal(m, s, distn, queuen, pp, nn);
                    }
                },
            }
        }
        // recorded distances stay below the cell count: every recorded cell
        // sits in the queue, at a position bounding its value
        assert forall|i: int|
            0 <= i < distn.len() && (#[trigger] distn[i]) is Some implies distn[i]->Some_0
            < m.cells.len() by {
            let k = choose|k: int| 0 <= k < queuen.len() && qi(m, queuen, k) == i;
            assert(qv(m, distn, queuen, k) <= k);
        }
    }
    SearchResult { dist, width: w, height: h }
}

/// The search starts at home: a correct result always records distance 0
/// for the source cell itself, and records each reachable cell exactly once
/// — present if and only if some passable path leads to it.
pub proof fn lemma_source_distance_zero(m: GridModel, s: (int, int), r: DistModel)
    requires
        m.wf(),
        m.passable(s.0, s.1),
        distances_correct(m, s, r),
    ensures
        ({
            let si = s.1 * (m.width as int) + s.0;
            &&& 0 <= si < r.dist.len()
            &&& r.dist[si] == Some(0usize)
        }),
        forall|i: int|
            0 <= i < r.dist.len() ==> ((#[trigger] r.dist[i]) is Some <==> reachable(
                m,
                s,
                pos_of(m, i),
            )),
{
    assert(m.in_bounds(s.0, s.1));
    lemma_index_of_bounds(m, s.0, s.1);
    let si = s.1 * (m.width as int) + s.0;
    assert(pos_of(m, si) == s) by {
        vstd::arithmetic::div_mod::lemma_fundamental_div_mod_converse(
            si,
            m.width as int,
            s.1,
            s.0,
        );
    }
    assert(reach_within(m, s, s, 0));
    assert(entry_ok(m, s, si, r.dist[si]));
    match r.dist[si] {
        Some(d) => {
            if d != 0 {
                lemma_reach_mono(m, s, s, 0, (d - 1) as nat);
            }
        },
        None => {
            assert(reachable(m, s, s));
        },
    }
    assert forall|i: int|
        0 <= i < r.dist.len() implies ((#[trigger] r.dist[i]) is Some <==> reachable(
        m,
        s,
        pos_of(m, i),
    )) by {
        assert(entry_ok(m, s, i, r.dist[i]));
        if r.dist[i] is Some {
            assert(reach_within(m, s, pos_of(m, i), r.dist[i]->Some_0 as nat));
        }
    }
}

/// A cell walled off on all four sides by land or the map edge is absent
/// from every search result whose source lies elsewhere.
pub proof fn lemma_enclosed_cell_absent(m: GridModel, s: (int, int), r: DistModel, p: (int, int))
    requires
        m.wf(),
        distances_correct(m, s, r),
        m.in_bounds(p.0, p.1),
        p != s,
        forall|q: (int, int)| adjacent(q, p) ==> !m.passable(q.0, q.1),
    ensures
        ({
            let pi = p.1 * (m.width as int) + p.0;
            &&& 0 <= pi < r.dist.len()
            &&& r.dist[pi] is None
        }),
{
    crate::reach::lemma_enclosed_cell_unreachable(m, s, p);
    lemma_index_of_bounds(m, p.0, p.1);
    let pi = p.1 * (m.width as int) + p.0;
    assert(pos_of(m, pi) == p) by {
        vstd::arithmetic::div_mod::lemma_fundamental_div_mod_converse(
            pi,
            m.width as int,
            p.1,
            p.0,
        );
    }
    assert(entry_ok(m, s, pi, r.dist[pi]));
    if r.dist[pi] is Some {
        assert(reach_within(m, s, p, r.dist[pi]->Some_0 as nat));
        assert(reachable(m, s, p));
    }
}

/// Searching is read-only and deterministic: any two correct results for
/// the same map and source are one and the same mapping.
pub proof fn lemma_search_deterministic(m: GridModel, s: (int, int), r1: DistModel, r2: DistModel)
    requires
        distances_correct(m, s, r1),
        distances_correct(m, s, r2),
    ensures
        r1 == r2,
{
    assert forall|i: int| 0 <= i < r1.dist.len() implies r1.dist[i] == r2.dist[i] by {
        assert(entry_ok(m, s, i, r1.dist[i]));
        assert(entry_ok(m, s, i, r2.dist[i]));
        match (r1.dist[i], r2.dist[i]) {
            (Some(d1), Some(d2)) => {
                lemma_shortest_unique(m, s, pos_of(m, i), d1 as nat, d2 as nat);
            },
            (Some(d1), None) => {
                assert(reachable(m, s, pos_of(m, i)));
            },
            (None, Some(d2)) => {
                assert(reachable(m, s, pos_of(m, i)));
            },
            (None, None) => {},
        }
    }
    assert(r1.dist =~= r2.dist);
}

} // verus!
