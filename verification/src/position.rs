//! Positions and position maps.
//!
//! A layout algorithm produces a [`PositionMap`]: a table from dense node
//! index to a normalized fixed-point position. The scene composer consumes a
//! position map uniformly, whatever algorithm produced it.

use crate::fixed::UNIT;
use vstd::prelude::*;

verus! {

/// A 2-D point in fixed-point coordinates (see [`crate::fixed::UNIT`]).
#[derive(Clone, Copy, Debug, PartialEq, Eq, Structural)]
pub struct Pos {
    /// Horizontal coordinate.
    pub x: i64,
    /// Vertical coordinate; larger values are drawn further down.
    pub y: i64,
}

/// Whether a position lies in the normalized square [0, 1]×[0, 1].
pub open spec fn in_unit_square(p: Pos) -> bool {
    0 <= p.x <= UNIT && 0 <= p.y <= UNIT
}

/// A position for every node of a graph, indexed by dense node index.
#[derive(Clone, Debug)]
pub struct PositionMap {
    /// The position table; entry `i` belongs to node `i`.
    pub positions: Vec<Pos>,
}

impl PositionMap {
    /// Number of nodes the map covers.
    pub fn len(&self) -> (r: usize)
        ensures
            r == self.positions@.len(),
    {
        self.positions.len()
    }

    /// The position of the node with dense index `i`.
    pub fn get(&self, i: usize) -> (r: Pos)
        requires
            i < self.positions@.len(),
        ensures
            r == self.positions@[i as int],
    {
        self.positions[i]
    }
}

} // verus!
