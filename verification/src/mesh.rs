//! The meshes that the engine hands to a renderer.
//!
//! A mesh is three parallel sequences: points, one normal for each point,
//! and triangles as triples of indices into the points.

use crate::entity::{into_range, within_range};
use vstd::prelude::*;

verus! {

/// A point of a mesh.
#[derive(Clone, Copy, Debug, PartialEq, Eq)]
pub struct Position {
    pub position: [i64; 3],
}

/// The normal at a point of a mesh.
#[derive(Clone, Copy, Debug, PartialEq, Eq)]
pub struct Normal {
    pub normal: [i64; 3],
}

/// A skeleton of points and edges from which a mesh is grown.
#[derive(Debug, PartialEq, Eq)]
pub struct Magma {
    pub positions: Vec<Position>,
    pub normals: Vec<Normal>,
    pub indices: Vec<u32>,
}

/// A mesh: points, their normals, and the corners of its triangles.
#[derive(Debug, PartialEq, Eq)]
pub struct Stone {
    pub positions: Vec<Position>,
    pub normals: Vec<Normal>,
    pub indices: Vec<u32>,
}

/// The model of a mesh.
pub struct StoneModel {
    pub positions: Seq<Position>,
    pub normals: Seq<Normal>,
    pub indices: Seq<u32>,
}

impl View for Stone {
    type V = StoneModel;

    open spec fn view(&self) -> StoneModel {
        StoneModel { positions: self.positions@, normals: self.normals@, indices: self.indices@ }
    }
}

impl StoneModel {
    /// Whether the three sequences fit together: one normal for each point,
    /// three corners for each triangle, and every corner a point.
    pub open spec fn well_formed(self) -> bool {
        &&& self.normals.len() == self.positions.len()
        &&& self.indices.len() % 3 == 0
        &&& forall|i: int| 0 <= i < self.indices.len() ==> (#[trigger] self.indices[i]) < self.positions.len()
    }
}

/// The point `p` moved by `by`. A coordinate that would leave the range of
/// coordinates stays at its end.
pub open spec fn shifted(p: Position, by: [i64; 3]) -> Position {
    Position {
        position: [
            within_range(p.position[0] + by[0]),
            within_range(p.position[1] + by[1]),
            within_range(p.position[2] + by[2]),
        ],
    }
}

/// The points `all`, each moved by `by`.
pub open spec fn all_shifted(all: Seq<Position>, by: [i64; 3]) -> Seq<Position> {
    Seq::new(all.len(), |i: int| shifted(all[i], by))
}

/// The mesh `stone` with its points moved by `by`.
pub open spec fn placed(stone: StoneModel, by: [i64; 3]) -> StoneModel {
    StoneModel { positions: all_shifted(stone.positions, by), ..stone }
}

/// A mesh that is moved stays well formed.
pub proof fn lemma_placed_well_formed(stone: StoneModel, by: [i64; 3])
    requires
        stone.well_formed(),
    ensures
        placed(stone, by).well_formed(),
{
}

/// Moves one coordinate.
fn shift_coordinate(x: i64, by: i64) -> (moved: i64)
    ensures
        moved == within_range(x + by),
{
    into_range((x as i128) + (by as i128))
}

/// Moves every one of `positions` by `by`.
pub fn move_positions(positions: &mut Vec<Position>, by: [i64; 3])
    ensures
        final(positions)@ == all_shifted(old(positions)@, by),
{
    let n = positions.len();
    let mut i: usize = 0;
    while i < n
        invariant
            i <= n,
            positions@.len() == n,
            old(positions)@.len() == n,
            forall|k: int| 0 <= k < i ==> #[trigger] positions@[k] == shifted(old(positions)@[k], by),
            forall|k: int| i <= k < n ==> #[trigger] positions@[k] == old(positions)@[k],
        decreases n - i,
    {
        let p = positions[i].position;
        let moved = Position {
            position: [shift_coordinate(p[0], by[0]), shift_coordinate(p[1], by[1]), shift_coordinate(p[2], by[2])],
        };
        positions.set(i, moved);
        i += 1;
    }
}

/// The mesh of a skeleton of more than two points: the mesh without points.
pub fn petrify_flow(flow: Magma) -> (stone: Stone)
    ensures
        stone@.positions.len() == 0,
        stone@.normals.len() == 0,
        stone@.indices.len() == 0,
        stone@.well_formed(),
{
    Stone { positions: Vec::new(), normals: Vec::new(), indices: Vec::new() }
}

} // verus!
