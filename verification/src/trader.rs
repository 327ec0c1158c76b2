//! The port visitation engine: a trader stands on a port, repeatedly
//! searches the map, and moves to the lowest-numbered port above its
//! current one, accumulating shortest-path fuel costs. When a lap begins at
//! the first port, the return leg to the highest discovered port is charged
//! up front as well.

use crate::grid::{lemma_index_of_bounds, GridModel, WorldMap};
use crate::parse::{lemma_spec_parse_ok, parse_map, spec_parse, MapSetup};
use crate::reach::{
    lemma_open_water_reachable, lemma_shortest_dist_is, reachable, shortest_dist,
};
use crate::search::{
    dist_at, distances_correct, entry_ok, lemma_search_deterministic, pos_of, ptup,
    shortest_distances, DistModel,
};
use crate::{ParseError, Pos, WorldMapNode, MAX_CELLS};
use vstd::prelude::*;

verus! {

/// Model of the trader's whole state.
pub ghost struct TraderModel {
    pub grid: GridModel,
    pub current: (int, int),
    pub first: (int, int),
    pub fuel: int,
}

/// The id of the port standing at `p`, or -1 where there is none.
pub open spec fn port_id_at(m: GridModel, p: (int, int)) -> int {
    match m.cell(p.0, p.1) {
        WorldMapNode::Port(id) => id as int,
        _ => -1,
    }
}

/// Well-formedness of a trader: the grid is sound, both remembered
/// positions hold ports, and the accumulated fuel is bounded by the laps
/// already sailed (at most two legs per port id, each shorter than the cell
/// count).
pub open spec fn trader_wf(v: TraderModel) -> bool {
    &&& v.grid.wf()
    &&& v.grid.cell(v.current.0, v.current.1) matches WorldMapNode::Port(_)
    &&& v.grid.cell(v.first.0, v.first.1) matches WorldMapNode::Port(_)
    &&& 0 <= v.fuel
    &&& v.fuel <= 2 * (port_id_at(v.grid, v.current) + 1) * (v.grid.width * v.grid.height)
}

/// The freshly parsed state: standing on the first port with no fuel spent.
pub open spec fn start_model(setup: MapSetup) -> TraderModel {
    TraderModel {
        grid: setup.grid,
        current: pos_of(setup.grid, setup.first_index),
        first: pos_of(setup.grid, setup.first_index),
        fuel: 0,
    }
}

/// Flat cell `i` holds a port numbered above the current one, and a
/// passable path from the current position reaches it.
pub open spec fn is_candidate(v: TraderModel, i: int) -> bool {
    &&& 0 <= i < v.grid.cells.len()
    &&& v.grid.cells[i].is_port_above(port_id_at(v.grid, v.current))
    &&& reachable(v.grid, v.current, pos_of(v.grid, i))
}

/// The id of the port at flat index `i`, or -1.
pub open spec fn id_at(m: GridModel, i: int) -> int {
    if 0 <= i < m.cells.len() {
        match m.cells[i] {
            WorldMapNode::Port(id) => id as int,
            _ => -1,
        }
    } else {
        -1
    }
}

/// Among the first `n` cells, the candidate with the least id, earliest on
/// ties.
pub open spec fn min_candidate(v: TraderModel, n: int) -> Option<int>
    decreases n,
{
    if n <= 0 {
        None
    } else {
        let prev = min_candidate(v, n - 1);
        if is_candidate(v, n - 1) {
            match prev {
                None => Some(n - 1),
                Some(j) => if id_at(v.grid, n - 1) < id_at(v.grid, j) {
                    Some(n - 1)
                } else {
                    prev
                },
            }
        } else {
            prev
        }
    }
}

/// Among the first `n` cells, the candidate with the greatest id, earliest
/// on ties.
pub open spec fn max_candidate(v: TraderModel, n: int) -> Option<int>
    decreases n,
{
    if n <= 0 {
        None
    } else {
        let prev = max_candidate(v, n - 1);
        if is_candidate(v, n - 1) {
            match prev {
                None => Some(n - 1),
                Some(j) => if id_at(v.grid, n - 1) > id_at(v.grid, j) {
                    Some(n - 1)
                } else {
                    prev
                },
            }
        } else {
            prev
        }
    }
}

/// One step of the visitation policy, as a function of the state alone:
/// with no reachable higher port the state is unchanged and the sequence
/// ends; otherwise the trader moves to the lowest-numbered reachable higher
/// port, paying its shortest distance — plus, when the step leaves the
/// first port, the distance of the highest-numbered candidate, the bundled
/// return leg.
pub open spec fn step_result(v: TraderModel) -> (TraderModel, Option<int>) {
    let n = v.grid.cells.len() as int;
    match min_candidate(v, n) {
        None => (v, None),
        Some(mi) => {
            let xi = max_candidate(v, n)->Some_0;
            let extra = if v.current == v.first {
                shortest_dist(v.grid, v.current, pos_of(v.grid, xi))
            } else {
                0
            };
            let fuel2 = v.fuel + extra + shortest_dist(v.grid, v.current, pos_of(v.grid, mi));
            (
                TraderModel {
                    grid: v.grid,
                    current: pos_of(v.grid, mi),
                    first: v.first,
                    fuel: fuel2,
                },
                Some(fuel2),
            )
        },
    }
}

/// A trading vessel on its map: current and first port, and the fuel spent
/// so far.
#[derive(Debug)]
pub struct PhoenicianTrader {
    world: WorldMap,
    current_port: Pos,
    first_port: Pos,
    fuel_cost: usize,
}

impl View for PhoenicianTrader {
    type V = TraderModel;

    closed spec fn view(&self) -> TraderModel {
        TraderModel {
            grid: self.world@,
            current: ptup(self.current_port),
            first: ptup(self.first_port),
            fuel: self.fuel_cost as int,
        }
    }
}

impl PhoenicianTrader {
    #[verifier::type_invariant]
    spec fn inv(self) -> bool {
        trader_wf(self@)
    }

    /// Parses map text into a trader standing on its lowest-numbered port,
    /// no fuel spent. Returns exactly the error [`spec_parse`] prescribes.
    pub fn parse(text: &str) -> (r: Result<PhoenicianTrader, ParseError>)
        ensures
            (r is Ok) == (spec_parse(text@) is Ok),
            r matches Ok(t) ==> spec_parse(text@) matches Ok(setup) && t@ == start_model(setup),
            r matches Err(e) ==> spec_parse(text@) == Err::<MapSetup, ParseError>(e),
    {
        match parse_map(text) {
            Err(e) => Err(e),
            Ok((world, first)) => {
                proof {
                    lemma_spec_parse_ok(text@);
                    let setup = spec_parse(text@)->Ok_0;
                    let m = setup.grid;
                    assert(m.width >= 1 && m.height >= 1) by (nonlinear_arith)
                        requires
                            m.width * m.height >= 1,
                    ;
                    vstd::arithmetic::div_mod::lemma_mod_bound(setup.first_index, m.width as int);
                    assert(setup.first_index / (m.width as int) < m.height) by (nonlinear_arith)
                        requires
                            0 <= setup.first_index,
                            setup.first_index < m.width * m.height,
                            1 <= m.width,
                    ;
                    let p = pos_of(m, setup.first_index);
                    assert(m.in_bounds(p.0, p.1));
                    vstd::arithmetic::div_mod::lemma_fundamental_div_mod(
                        setup.first_index,
                        m.width as int,
                    );
                    assert((p.1 * m.width as int) == (m.width as int) * p.1) by (nonlinear_arith);
                    assert(p.1 * m.width + p.0 == setup.first_index);
                    assert(m.cell(p.0, p.1) == m.cells[setup.first_index]);
                    assert(2 * (port_id_at(m, p) + 1) * (m.width * m.height) >= 0)
                        by (nonlinear_arith)
                        requires
                            port_id_at(m, p) >= 0,
                            m.width * m.height >= 0,
                    ;
                }
                Ok(
                    PhoenicianTrader {
                        world,
                        current_port: first,
                        first_port: first,
                        fuel_cost: 0,
                    },
                )
            },
        }
    }

    /// The port cell the vessel now occupies.
    pub fn current_port(&self) -> (r: Pos)
        ensures
            ptup(r) == self@.current,
    {
        self.current_port
    }

    /// The first (lowest-numbered) port, where the voyage began.
    pub fn first_port(&self) -> (r: Pos)
        ensures
            ptup(r) == self@.first,
    {
        self.first_port
    }

    /// Fuel spent so far: the sum of the shortest distances of all legs
    /// already sailed.
    pub fn fuel_cost(&self) -> (r: usize)
        ensures
            r as int == self@.fuel,
    {
        self.fuel_cost
    }

    /// The map sailed on.
    pub fn map(&self) -> (r: &WorldMap)
        ensures
            r@ == self@.grid,
    {
        &self.world
    }

    /// One step of the visitation, exactly [`step_result`] of the state.
    /// `None` reports the normal end: no reachable port numbered above the
    /// current one remains, and nothing changes. Otherwise the vessel moves
    /// to the lowest-numbered reachable higher port, pays that leg's
    /// shortest distance — plus, when leaving the first port, the bundled
    /// return leg from the highest-numbered candidate — and the new
    /// cumulative fuel cost is returned. Costs never decrease.
    pub fn next(&mut self) -> (r: Option<usize>)
        ensures
            final(self)@ == step_result(old(self)@).0,
            (r is Some) == (step_result(old(self)@).1 is Some),
            r matches Some(f) ==> f as int == step_result(old(self)@).1->Some_0 && f as int
                == final(self)@.fuel && f as int >= old(self)@.fuel,
            r is None ==> final(self)@ == old(self)@,
    {
        proof {
            use_type_invariant(&*self);
        }
        let ghost v = self@;
        let w = self.world.width();
        let h = self.world.height();
        proof {
            assert(v.grid.in_bounds(v.current.0, v.current.1));
        }
        let ci = self.current_port.to_index((w, h));
        let cur_cell = self.world.cell_at_index(ci);
        let cur_id: usize = match cur_cell {
            WorldMapNode::Port(id) => id,
            _ => {
                proof {
                    assert(v.grid.cell(v.current.0, v.current.1) == v.grid.cells[ci as int]);
                    assert(false);
                }
                0
            },
        };
        proof {
            assert(v.grid.cell(v.current.0, v.current.1) == v.grid.cells[ci as int]);
            assert(cur_id as int == port_id_at(v.grid, v.current));
            assert(cur_id <= 9);
        }
        let sr = shortest_distances(&self.world, self.current_port);
        let ghost dm = sr@;
        let n = w * h;
        let mut bmin_i: usize = 0;
        let mut bmin_id: usize = 0;
        let mut bmin_d: usize = 0;
        let mut bmax_i: usize = 0;
        let mut bmax_id: usize = 0;
        let mut bmax_d: usize = 0;
        let mut found = false;
        let mut i: usize = 0;
        while i < n
            invariant
                self@ == v,
                trader_wf(v),
                w == v.grid.width,
                h == v.grid.height,
                n == v.grid.cells.len(),
                cur_id as int == port_id_at(v.grid, v.current),
                distances_correct(v.grid, v.current, dm),
                dm == sr@,
                i <= n,
                !found ==> min_candidate(v, i as int) is None && max_candidate(v, i as int)
                    is None,
                found ==> min_candidate(v, i as int) == Some(bmin_i as int),
                found ==> max_candidate(v, i as int) == Some(bmax_i as int),
                found ==> bmin_i < n && bmax_i < n,
                found ==> bmin_id as int == id_at(v.grid, bmin_i as int) && bmax_id as int
                    == id_at(v.grid, bmax_i as int),
                found ==> bmin_d as int == shortest_dist(
                    v.grid,
                    v.current,
                    pos_of(v.grid, bmin_i as int),
                ) && bmin_d < n,
                found ==> bmax_d as int == shortest_dist(
                    v.grid,
                    v.current,
                    pos_of(v.grid, bmax_i as int),
                ) && bmax_d < n,
            decreases n - i,
        {
            proof {
                assert(w >= 1 && h >= 1) by (nonlinear_arith)
                    requires
                        n == w * h,
                        i < n,
                        0 <= i,
                ;
                assert(w <= MAX_CELLS && h <= MAX_CELLS) by (nonlinear_arith)
                    requires
                        n == w * h,
                        n <= MAX_CELLS,
                        w >= 1,
                        h >= 1,
                ;
            }
            let cell = self.world.cell_at_index(i);
            let mut cand = false;
            let mut cid: usize = 0;
            match cell {
                WorldMapNode::Port(id) => {
                    if id > cur_id {
                        cand = true;
                        cid = id;
                    }
                },
                _ => {},
            }
            let mut cd: usize = 0;
            if cand {
                let px = i % w;
                let py = i / w;
                proof {
                    vstd::arithmetic::div_mod::lemma_mod_bound(i as int, w as int);
                    assert((i as int) / (w as int) < h) by (nonlinear_arith)
                        requires
                            0 <= i,
                            (i as int) < (w as int) * (h as int),
                            1 <= w,
                    ;
                    vstd::arithmetic::div_mod::lemma_fundamental_div_mod(i as int, w as int);
                    assert((py as int) * (w as int) == (w as int) * (py as int))
                        by (nonlinear_arith);
                    assert((py as int) * (w as int) + px == i);
                    assert(pos_of(v.grid, i as int) == (px as int, py as int));
                }
                match sr.distance(Pos(px as i32, py as i32)) {
                    Some(d) => {
                        cd = d;
                        proof {
                            assert(dist_at(dm, px as int, py as int) == dm.dist[i as int]);
                            assert(entry_ok(v.grid, v.current, i as int, dm.dist[i as int]));
                            lemma_shortest_dist_is(
                                v.grid,
                                v.current,
                                pos_of(v.grid, i as int),
                                d as nat,
                            );
                            assert(reachable(v.grid, v.current, pos_of(v.grid, i as int)));
                            assert(is_candidate(v, i as int));
                            assert(d < n);
                        }
                    },
                    None => {
                        cand = false;
                        proof {
                            assert(dist_at(dm, px as int, py as int) == dm.dist[i as int]);
                            assert(entry_ok(v.grid, v.current, i as int, dm.dist[i as int]));
                            assert(!reachable(v.grid, v.current, pos_of(v.grid, i as int)));
                            assert(!is_candidate(v, i as int));
                        }
                    },
                }
            } else {
                proof {
                    assert(!v.grid.cells[i as int].is_port_above(port_id_at(v.grid, v.current)));
                    assert(!is_candidate(v, i as int));
                }
            }
            proof {
                if cand {
                    assert(id_at(v.grid, i as int) == cid);
                }
            }
            if cand {
                if !found || cid < bmin_id {
                    bmin_i = i;
                    bmin_id = cid;
                    bmin_d = cd;
                }
                if !found || cid > bmax_id {
                    bmax_i = i;
                    bmax_id = cid;
                    bmax_d = cd;
                }
                found = true;
            }
            i = i + 1;
        }
        if !found {
            proof {
                assert(step_result(v).1 is None);
                assert(step_result(v).0 == v);
            }
            return None;
        }
        proof {
            assert(n >= 1);
            assert(w >= 1 && h >= 1) by (nonlinear_arith)
                requires
                    n == w * h,
                    n >= 1,
            ;
            assert(w <= MAX_CELLS) by (nonlinear_arith)
                requires
                    n == w * h,
                    n <= MAX_CELLS,
                    w >= 1,
                    h >= 1,
            ;
            vstd::arithmetic::div_mod::lemma_mod_bound(bmin_i as int, w as int);
            assert((bmin_i as int) / (w as int) < h) by (nonlinear_arith)
                requires
                    0 <= bmin_i,
                    (bmin_i as int) < (w as int) * (h as int),
                    1 <= w,
            ;
            vstd::arithmetic::div_mod::lemma_fundamental_div_mod(bmin_i as int, w as int);
        }
        let px = bmin_i % w;
        let py = bmin_i / w;
        let newpos = Pos(px as i32, py as i32);
        let ghost newp = pos_of(v.grid, bmin_i as int);
        proof {
            assert((py as int) * (w as int) == (w as int) * (py as int)) by (nonlinear_arith);
            assert((py as int) * (w as int) + px == bmin_i);
            assert(ptup(newpos) == newp);
            assert(v.grid.cell(newp.0, newp.1) == v.grid.cells[bmin_i as int]);
            // the chosen candidate is a port numbered above the current one
            assert(is_candidate(v, bmin_i as int)) by {
                lemma_min_candidate_props(v, n as int);
            }
            assert(port_id_at(v.grid, newp) == bmin_id as int);
            assert(bmin_id as int > cur_id as int);
            assert(bmin_id <= 9);
            // the fuel bound moves with the port id
            assert(2 * (cur_id + 1) * ((w as int) * (h as int)) <= 2 * (bmin_id + 1) * ((w as int)
                * (h as int))) by (nonlinear_arith)
                requires
                    cur_id <= bmin_id,
                    (w as int) * (h as int) >= 0,
            ;
        }
        let mut add: usize = bmin_d;
        if self.current_port == self.first_port {
            proof {
                assert(v.current == v.first);
            }
            add = add + bmax_d;
        } else {
            proof {
                assert(v.current != v.first);
            }
        }
        proof {
            // the new total stays within the invariant bound and the machine
            assert(self.fuel_cost as int <= 2 * (cur_id + 1) * ((w as int) * (h as int)));
            assert(2 * (bmin_id + 1) * ((w as int) * (h as int)) <= 22 * MAX_CELLS)
                by (nonlinear_arith)
                requires
                    bmin_id <= 9,
                    0 <= (w as int) * (h as int) <= MAX_CELLS,
            ;
            assert(add as int <= 2 * ((w as int) * (h as int)) - 2);
            assert(self.fuel_cost as int + add as int <= 2 * (bmin_id + 1) * ((w as int) * (h
                as int))) by (nonlinear_arith)
                requires
                    self.fuel_cost as int <= 2 * (cur_id + 1) * ((w as int) * (h as int)),
                    add as int <= 2 * ((w as int) * (h as int)) - 2,
                    cur_id + 1 <= bmin_id,
                    (w as int) * (h as int) >= 1,
            ;
        }
        self.current_port = newpos;
        self.fuel_cost = self.fuel_cost + add;
        proof {
            assert(final(self)@ == step_result(v).0);
        }
        Some(self.fuel_cost)
    }
}

impl core::str::FromStr for PhoenicianTrader {
    type Err = ParseError;

    fn from_str(s: &str) -> Result<Self, ParseError> {
        PhoenicianTrader::parse(s)
    }
}

/// What `min_candidate` selects is a candidate of least id, earliest on
/// ties; and it selects one whenever any candidate exists.
pub proof fn lemma_min_candidate_props(v: TraderModel, n: int)
    requires
        n <= v.grid.cells.len(),
    ensures
        min_candidate(v, n) is None ==> forall|i: int| 0 <= i < n ==> !is_candidate(v, i),
        min_candidate(v, n) matches Some(mi) ==> {
            &&& 0 <= mi < n
            &&& is_candidate(v, mi)
            &&& forall|i: int|
                0 <= i < n && #[trigger] is_candidate(v, i) ==> id_at(v.grid, i) >= id_at(
                    v.grid,
                    mi,
                )
            &&& forall|i: int|
                0 <= i < mi && #[trigger] is_candidate(v, i) ==> id_at(v.grid, i) > id_at(
                    v.grid,
                    mi,
                )
        },
    decreases n,
{
    if n > 0 {
        lemma_min_candidate_props(v, n - 1);
    }
}

/// What `max_candidate` selects is a candidate of greatest id, earliest on
/// ties; and it selects one whenever any candidate exists.
pub proof fn lemma_max_candidate_props(v: TraderModel, n: int)
    requires
        n <= v.grid.cells.len(),
    ensures
        max_candidate(v, n) is None ==> forall|i: int| 0 <= i < n ==> !is_candidate(v, i),
        max_candidate(v, n) matches Some(mi) ==> {
            &&& 0 <= mi < n
            &&& is_candidate(v, mi)
            &&& forall|i: int|
                0 <= i < n && #[trigger] is_candidate(v, i) ==> id_at(v.grid, i) <= id_at(
                    v.grid,
                    mi,
                )
            &&& forall|i: int|
                0 <= i < mi && #[trigger] is_candidate(v, i) ==> id_at(v.grid, i) < id_at(
                    v.grid,
                    mi,
                )
        },
    decreases n,
{
    if n > 0 {
        lemma_max_candidate_props(v, n - 1);
    }
}

/// The state after `k` steps of the engine.
pub open spec fn run_steps(v: TraderModel, k: nat) -> TraderModel
    decreases k,
{
    if k == 0 {
        v
    } else {
        step_result(run_steps(v, (k - 1) as nat)).0
    }
}

/// Round trip: two traders parsed from the same map text are one and the
/// same state; their maps produce identical distance results; and after
/// any number of engine steps their cumulative fuel costs are identical.
pub proof fn lemma_reparse_round_trip(
    s: Seq<char>,
    v1: TraderModel,
    v2: TraderModel,
    r1: DistModel,
    r2: DistModel,
    k: nat,
)
    requires
        spec_parse(s) is Ok,
        v1 == start_model(spec_parse(s)->Ok_0),
        v2 == start_model(spec_parse(s)->Ok_0),
        distances_correct(v1.grid, v1.current, r1),
        distances_correct(v2.grid, v2.current, r2),
    ensures
        v1 == v2,
        r1 == r2,
        run_steps(v1, k) == run_steps(v2, k),
        run_steps(v1, k).fuel == run_steps(v2, k).fuel,
{
    lemma_search_deterministic(v1.grid, v1.current, r1, r2);
}

/// Some cell of `m` is a port numbered `q`.
pub open spec fn has_port(m: GridModel, q: int) -> bool {
    exists|i: int|
        0 <= i < m.cells.len() && #[trigger] m.cells[i] == WorldMapNode::Port(q as usize)
}

/// All the ports of a map are numbered 1 to `kk`, every number is taken,
/// and no cell is land.
pub open spec fn open_water_ports(m: GridModel, kk: int) -> bool {
    &&& forall|x: int, y: int| m.in_bounds(x, y) ==> #[trigger] m.passable(x, y)
    &&& forall|q: int| 1 <= q <= kk ==> #[trigger] has_port(m, q)
    &&& forall|i: int|
        0 <= i < m.cells.len() ==> ((#[trigger] m.cells[i]) matches WorldMapNode::Port(q) ==> 1
            <= q as int <= kk)
}

/// On an all-water map whose port ids are exactly 1 to `kk`, one engine
/// step from port `i < kk` always succeeds and lands on port `i + 1`, and
/// a step from port `kk` ends the sequence with nothing changed: ids are
/// visited in strictly increasing order.
pub proof fn lemma_open_water_tour_step(v: TraderModel, kk: int)
    requires
        v.grid.wf(),
        open_water_ports(v.grid, kk),
        1 <= port_id_at(v.grid, v.current) <= kk,
    ensures
        port_id_at(v.grid, v.current) == kk ==> step_result(v) == (v, Option::<int>::None),
        port_id_at(v.grid, v.current) < kk ==> {
            &&& step_result(v).1 is Some
            &&& port_id_at(v.grid, step_result(v).0.current) == port_id_at(v.grid, v.current) + 1
            &&& step_result(v).0.grid == v.grid
            &&& step_result(v).0.first == v.first
        },
{
    let m = v.grid;
    let n = m.cells.len() as int;
    let c = port_id_at(m, v.current);
    lemma_min_candidate_props(v, n);
    assert(m.cell(v.current.0, v.current.1) matches WorldMapNode::Port(_));
    assert(m.in_bounds(v.current.0, v.current.1));
    if c == kk {
        assert forall|i: int| 0 <= i < n implies !is_candidate(v, i) by {
            match m.cells[i] {
                WorldMapNode::Port(q) => {
                    assert(q as int <= kk);
                },
                _ => {},
            }
        }
        match min_candidate(v, n) {
            Some(mi) => {
                assert(is_candidate(v, mi));
            },
            None => {},
        }
    } else {
        assert(has_port(m, c + 1));
        let i = choose|i: int|
            0 <= i < m.cells.len() && #[trigger] m.cells[i] == WorldMapNode::Port(
                (c + 1) as usize,
            );
        assert(0 <= i < n && m.cells[i] == WorldMapNode::Port((c + 1) as usize));
        assert(m.width >= 1) by (nonlinear_arith)
            requires
                m.width * m.height >= 1,
        ;
        vstd::arithmetic::div_mod::lemma_mod_bound(i, m.width as int);
        assert(i / (m.width as int) < m.height) by (nonlinear_arith)
            requires
                0 <= i,
                i < m.width * m.height,
                1 <= m.width,
        ;
        let p = pos_of(m, i);
        assert(m.in_bounds(p.0, p.1));
        lemma_open_water_reachable(m, v.current, p);
        assert(c <= 9) by {
            lemma_index_of_bounds(m, v.current.0, v.current.1);
            assert(m.cell(v.current.0, v.current.1) == m.cells[v.current.1 * (m.width as int)
                + v.current.0]);
        }
        assert(m.cells[i].is_port_above(c));
        assert(is_candidate(v, i));
        assert(min_candidate(v, n) is Some) by {
            if min_candidate(v, n) is None {
                assert(!is_candidate(v, i));
            }
        }
        let mi = min_candidate(v, n)->Some_0;
        assert(is_candidate(v, mi));
        assert(id_at(m, mi) <= id_at(m, i));
        assert(id_at(m, i) == c + 1);
        assert(id_at(m, mi) > c);
        assert(id_at(m, mi) == c + 1);
        // the landing cell carries that id
        vstd::arithmetic::div_mod::lemma_mod_bound(mi, m.width as int);
        assert(mi / (m.width as int) < m.height) by (nonlinear_arith)
            requires
                0 <= mi,
                mi < m.width * m.height,
                1 <= m.width,
        ;
        let np = pos_of(m, mi);
        vstd::arithmetic::div_mod::lemma_fundamental_div_mod(mi, m.width as int);
        assert((np.1 * m.width as int) == (m.width as int) * np.1) by (nonlinear_arith);
        assert(np.1 * m.width + np.0 == mi);
        assert(m.cell(np.0, np.1) == m.cells[mi]);
        assert(port_id_at(m, np) == c + 1);
    }
}

/// Starting at port 1 on such a map, the engine performs exactly `kk - 1`
/// costed steps — after `k` of them it stands on port `1 + k` — and the
/// step after the last returns nothing.
pub proof fn lemma_open_water_tour_len(v: TraderModel, kk: int, k: nat)
    requires
        v.grid.wf(),
        open_water_ports(v.grid, kk),
        port_id_at(v.grid, v.current) == 1,
        1 <= kk,
        k <= kk - 1,
    ensures
        run_steps(v, k).grid == v.grid,
        run_steps(v, k).first == v.first,
        port_id_at(v.grid, run_steps(v, k).current) == 1 + k,
        k < kk - 1 ==> step_result(run_steps(v, k)).1 is Some,
        k == kk - 1 ==> step_result(run_steps(v, k)) == (
            run_steps(v, k),
            Option::<int>::None,
        ),
    decreases k,
{
    if k == 0 {
        lemma_open_water_tour_step(v, kk);
    } else {
        lemma_open_water_tour_len(v, kk, (k - 1) as nat);
        let prev = run_steps(v, (k - 1) as nat);
        lemma_open_water_tour_step(prev, kk);
        assert(run_steps(v, k) == step_result(prev).0);
        lemma_open_water_tour_step(run_steps(v, k), kk);
    }
}

} // verus!
