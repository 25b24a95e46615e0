//! Random layout.
//!
//! Assigns each node an independent position drawn uniformly from the unit
//! square — a baseline and fallback layout with no ordering guarantee. The
//! generator comes from `fastrand`: by default seeded from entropy, or from
//! a caller-supplied seed so that a layout can be reproduced. Whatever the
//! generator returns, every produced position lies in [0, 1]×[0, 1]; nothing
//! else is promised of the values.

use crate::graph::GraphData;
use crate::position::{Pos, PositionMap};
use vstd::prelude::*;

verus! {

#[verifier::external_type_specification]
#[verifier::external_body]
pub struct ExRng(fastrand::Rng);

/// Relies on fastrand::Rng::new: a fresh generator seeded from entropy.
#[verifier::external_body]
fn rng_new() -> (r: fastrand::Rng) {
    fastrand::Rng::new()
}

/// Relies on fastrand::Rng::with_seed: a generator starting from the given
/// seed state.
#[verifier::external_body]
fn rng_with_seed(seed: u64) -> (r: fastrand::Rng) {
    fastrand::Rng::with_seed(seed)
}

/// Relies on fastrand::Rng::u32 over the full range: a generated value,
/// advancing the generator. Nothing is promised of the value.
#[verifier::external_body]
fn rng_next_u32(rng: &mut fastrand::Rng) -> (r: u32) {
    rng.u32(..)
}

/// Places every node at a position drawn from the generator, reduced to the
/// unit square. Holds for every outcome of the generator.
pub fn random_positions(node_count: usize, rng: &mut fastrand::Rng) -> (r: PositionMap)
    ensures
        r.positions@.len() == node_count,
        forall|i: int|
            0 <= i < node_count ==> crate::position::in_unit_square(#[trigger] r.positions@[i]),
{
    let mut ps: Vec<Pos> = Vec::new();
    let mut i: usize = 0;
    while i < node_count
        invariant
            i <= node_count,
            ps@.len() == i,
            forall|j: int|
                0 <= j < i ==> crate::position::in_unit_square(#[trigger] ps@[j]),
        decreases node_count - i,
    {
        let rx = rng_next_u32(rng);
        let ry = rng_next_u32(rng);
        let x: i64 = (rx % 1_000_001u32) as i64;
        let y: i64 = (ry % 1_000_001u32) as i64;
        ps.push(Pos { x, y });
        i += 1;
    }
    PositionMap { positions: ps }
}

/// Arranges nodes at uniformly random positions in the unit square, with a
/// generator seeded from entropy, as a baseline layout.
pub fn random_layout(g: &GraphData) -> (r: PositionMap)
    ensures
        r.positions@.len() == g.node_count,
        forall|i: int|
            0 <= i < g.node_count ==> crate::position::in_unit_square(#[trigger] r.positions@[i]),
{
    let mut rng = rng_new();
    random_positions(g.node_count, &mut rng)
}

/// The same as [`random_layout`], but from a caller-supplied seed, so a
/// layout can be reproduced.
pub fn random_layout_seeded(g: &GraphData, seed: u64) -> (r: PositionMap)
    ensures
        r.positions@.len() == g.node_count,
        forall|i: int|
            0 <= i < g.node_count ==> crate::position::in_unit_square(#[trigger] r.positions@[i]),
{
    let mut rng = rng_with_seed(seed);
    random_positions(g.node_count, &mut rng)
}

} // verus!
