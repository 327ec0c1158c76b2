//! A trading vessel sails a rectangular grid of water, land and numbered port
//! cells, moving one cell at a time in the four cardinal directions, never
//! through land. Starting at the lowest-numbered port, it must call at the
//! remaining ports in ascending numeric order; each leg costs the shortest
//! grid distance between the two ports, and when a lap begins at the first
//! port the distance of the return leg from the highest discovered port is
//! charged up front. The library parses the map text, computes shortest
//! distances by breadth-first search, and drives the visitation as an
//! explicit step-by-step state machine.

use vstd::prelude::*;

pub mod grid;
pub mod parse;
pub mod reach;
pub mod search;
pub mod trader;

verus! {

/// Greatest number of cells a grid may hold. The bound keeps every flat
/// index, every distance and every accumulated fuel cost comfortably inside
/// `usize` (and inside `i32` for coordinates) on any platform.
pub const MAX_CELLS: usize = 0x0400_0000;

/// A grid coordinate: column first, then row.
#[derive(Clone, Copy, Debug, PartialEq, Eq, Structural)]
pub struct Pos(pub i32, pub i32);

impl Pos {
    /// Flat row-major index of this position in a grid of the given
    /// `(width, height)`.
    pub fn to_index(&self, map_size: (usize, usize)) -> (r: usize)
        requires
            0 <= self.0 < map_size.0,
            0 <= self.1 < map_size.1,
            map_size.0 * map_size.1 <= MAX_CELLS,
        ensures
            r == self.1 * map_size.0 + self.0,
            r < map_size.0 * map_size.1,
    {
        proof {
            assert((self.1 as int) * (map_size.0 as int) + (self.0 as int) < (map_size.0 as int)
                * (map_size.1 as int)) by (nonlinear_arith)
                requires
                    0 <= self.0 < map_size.0,
                    0 <= self.1 < map_size.1,
            ;
        }
        self.1 as usize * map_size.0 + self.0 as usize
    }
}

/// One of the four cardinal directions of movement.
#[derive(Clone, Copy, Debug, PartialEq, Eq, Structural)]
pub enum Direction {
    North,
    South,
    East,
    West,
}

impl Direction {
    /// The coordinate offset `(dx, dy)` of one step in this direction.
    /// North increases the row index and South decreases it.
    pub open spec fn offset(self) -> (int, int) {
        match self {
            Direction::North => (0, 1),
            Direction::South => (0, -1),
            Direction::East => (1, 0),
            Direction::West => (-1, 0),
        }
    }

    /// The neighbouring position one step in this direction.
    pub fn to_pos(&self, pos: &Pos) -> (r: Pos)
        requires
            i32::MIN < pos.0 < i32::MAX,
            i32::MIN < pos.1 < i32::MAX,
        ensures
            r.0 == pos.0 + self.offset().0,
            r.1 == pos.1 + self.offset().1,
    {
        match self {
            Direction::North => Pos(pos.0, pos.1 + 1),
            Direction::South => Pos(pos.0, pos.1 - 1),
            Direction::East => Pos(pos.0 + 1, pos.1),
            Direction::West => Pos(pos.0 - 1, pos.1),
        }
    }
}

/// One cell of the world map: open water, impassable land, or a port
/// carrying its numeric id.
#[derive(Clone, Copy, Debug, PartialEq, Eq, Structural)]
pub enum WorldMapNode {
    Water,
    Land,
    Port(usize),
}

impl WorldMapNode {
    /// A vessel may occupy water and port cells, never land.
    pub open spec fn is_passable(self) -> bool {
        self !== WorldMapNode::Land
    }

    /// True of a port cell with id strictly above `id`.
    pub open spec fn is_port_above(self, id: int) -> bool {
        match self {
            WorldMapNode::Port(p) => p > id,
            _ => false,
        }
    }
}

/// Why a map text was rejected. Construction is all-or-nothing: no partial
/// map is ever returned.
#[derive(Clone, Copy, Debug, PartialEq, Eq, Structural)]
pub enum ParseError {
    /// A size header line was present but did not consist of two positive
    /// integers.
    MalformedHeader,
    /// The text contained a character other than `.`, `*`, a decimal digit,
    /// or line/blank structure; non-ASCII text is rejected outright.
    InvalidCharacter,
    /// The grid contained no port cell at all, so there is nowhere to start.
    NoStartingPort,
    /// The declared or inferred grid size exceeds [`MAX_CELLS`].
    MapTooLarge,
}

} // verus!
