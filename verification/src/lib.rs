use vstd::prelude::*;

pub mod geometry;
pub mod transform;
pub mod evaluator;
pub mod laws;
pub mod parse;
pub mod sqrt;

verus! {

/// Number of agents in every snapshot.
pub const SWARM_SIZE: usize = 15;

/// Position of one agent, in fixed-point coordinate units.
#[derive(Clone, Copy, PartialEq, Eq, Structural, Debug)]
pub struct AgentPos {
    pub x: i64,
    pub y: i64,
}

/// Largest coordinate magnitude the geometry kernel accepts; keeps every
/// intermediate product inside `i64`.
pub const COORD_LIMIT: i64 = 1_000_000;

/// A position is usable by the kernel when both coordinates are bounded.
pub open spec fn pos_ok(p: AgentPos) -> bool {
    -COORD_LIMIT <= p.x <= COORD_LIMIT && -COORD_LIMIT <= p.y <= COORD_LIMIT
}

/// A well-formed snapshot: exactly `SWARM_SIZE` bounded positions.
pub open spec fn snapshot_ok(s: Seq<AgentPos>) -> bool {
    s.len() == SWARM_SIZE && forall|i: int| 0 <= i < s.len() ==> pos_ok(#[trigger] s[i])
}

/// View of a trajectory as a sequence of snapshots.
pub open spec fn snaps_of(t: Seq<Vec<AgentPos>>) -> Seq<Seq<AgentPos>> {
    t.map_values(|s: Vec<AgentPos>| s@)
}

/// A well-formed trajectory: every snapshot is well-formed.
pub open spec fn trajectory_ok(t: Seq<Seq<AgentPos>>) -> bool {
    forall|i: int| 0 <= i < t.len() ==> snapshot_ok(#[trigger] t[i])
}

/// View of a sequence of feature vectors.
pub open spec fn metrics_of(m: Seq<Vec<i64>>) -> Seq<Seq<int>> {
    m.map_values(|v: Vec<i64>| ints_of(v@))
}

/// The mathematical view of a vector of fixed-point values.
pub open spec fn ints_of(v: Seq<i64>) -> Seq<int> {
    v.map_values(|x: i64| x as int)
}

/// The mathematical view of a vector of wide fixed-point values.
pub open spec fn wides_of(v: Seq<i128>) -> Seq<int> {
    v.map_values(|x: i128| x as int)
}

/// Sum of the first `n` entries of a sequence of integers.
pub open spec fn sum_prefix(s: Seq<int>, n: int) -> int
    decreases n,
{
    if n <= 0 {
        0
    } else {
        sum_prefix(s, n - 1) + s[n - 1]
    }
}

} // verus!
