//! The world map: a rectangular, immutable grid of cells, together with its
//! mathematical model.

use crate::{Pos, WorldMapNode, MAX_CELLS};
use vstd::prelude::*;

verus! {

/// Mathematical model of a map: the row-major cell sequence and the grid's
/// dimensions. Cell `(x, y)` lives at flat index `y * width + x`.
pub ghost struct GridModel {
    pub width: nat,
    pub height: nat,
    pub cells: Seq<WorldMapNode>,
}

impl GridModel {
    /// Well-formedness: the cell sequence fills the rectangle exactly, the
    /// grid is not larger than [`MAX_CELLS`], and every port id is a single
    /// decimal digit (ports come from digit characters of the map text).
    pub open spec fn wf(self) -> bool {
        &&& self.cells.len() == self.width * self.height
        &&& self.width * self.height <= MAX_CELLS
        &&& forall|i: int|
            0 <= i < self.cells.len() ==> ((#[trigger] self.cells[i]) matches WorldMapNode::Port(
                id,
            ) ==> id <= 9)
    }

    pub open spec fn in_bounds(self, x: int, y: int) -> bool {
        0 <= x < self.width && 0 <= y < self.height
    }

    /// The cell at `(x, y)`. Positions outside the grid read as land, so
    /// every out-of-bounds position is impassable.
    pub open spec fn cell(self, x: int, y: int) -> WorldMapNode {
        if self.in_bounds(x, y) {
            self.cells[y * self.width + x]
        } else {
            WorldMapNode::Land
        }
    }

    pub open spec fn passable(self, x: int, y: int) -> bool {
        self.cell(x, y).is_passable()
    }

    /// A flat index and the coordinates it stands for.
    pub open spec fn index_of(self, x: int, y: int) -> int {
        y * self.width + x
    }
}

/// In a well-formed grid, in-bounds coordinates give a flat index inside the
/// cell sequence, and distinct coordinates give distinct indices.
pub proof fn lemma_index_of_bounds(m: GridModel, x: int, y: int)
    requires
        m.wf(),
        m.in_bounds(x, y),
    ensures
        0 <= m.index_of(x, y) < m.cells.len(),
        m.index_of(x, y) % m.width as int == x,
        m.index_of(x, y) / m.width as int == y,
{
    let w = m.width as int;
    let h = m.height as int;
    assert(0 <= y * w + x < w * h) by (nonlinear_arith)
        requires
            0 <= x < w,
            0 <= y < h,
    ;
    vstd::arithmetic::div_mod::lemma_fundamental_div_mod_converse(y * w + x, w, y, x);
}

/// A rectangular map of [`WorldMapNode`] cells, immutable once built.
#[derive(Debug)]
pub struct WorldMap {
    cells: Vec<WorldMapNode>,
    width: usize,
    height: usize,
}

impl View for WorldMap {
    type V = GridModel;

    closed spec fn view(&self) -> GridModel {
        GridModel { width: self.width as nat, height: self.height as nat, cells: self.cells@ }
    }
}

impl WorldMap {
    /// Every map that exists is well-formed.
    #[verifier::type_invariant]
    pub open spec fn inv(self) -> bool {
        self@.wf()
    }

    /// Assembles a map from an already validated cell sequence.
    pub(crate) fn from_parts(cells: Vec<WorldMapNode>, width: usize, height: usize) -> (r: Self)
        requires
            (GridModel { width: width as nat, height: height as nat, cells: cells@ }).wf(),
        ensures
            r@ == (GridModel { width: width as nat, height: height as nat, cells: cells@ }),
    {
        WorldMap { cells, width, height }
    }

    pub fn width(&self) -> (r: usize)
        ensures
            r == self@.width,
    {
        self.width
    }

    pub fn height(&self) -> (r: usize)
        ensures
            r == self@.height,
    {
        self.height
    }

    /// Bounds-checked lookup: the cell at `pos`, or `None` exactly when
    /// `pos` lies outside the grid.
    pub fn cell_at(&self, pos: Pos) -> (r: Option<WorldMapNode>)
        ensures
            self@.in_bounds(pos.0 as int, pos.1 as int) ==> r == Some(
                self@.cell(pos.0 as int, pos.1 as int),
            ),
            !self@.in_bounds(pos.0 as int, pos.1 as int) ==> r is None,
    {
        proof {
            use_type_invariant(&*self);
        }
        if pos.0 >= 0 && pos.1 >= 0 && (pos.0 as usize) < self.width && (pos.1 as usize)
            < self.height {
            let idx = pos.to_index((self.width, self.height));
            Some(self.cells[idx])
        } else {
            None
        }
    }

    /// The cell at an in-bounds flat index.
    pub(crate) fn cell_at_index(&self, idx: usize) -> (r: WorldMapNode)
        requires
            0 <= idx < self@.cells.len(),
        ensures
            r == self@.cells[idx as int],
    {
        proof {
            use_type_invariant(&*self);
        }
        self.cells[idx]
    }
}

} // verus!
