//! Trajectory transform and trajectory distance: a trajectory becomes one
//! feature vector per snapshot after the first, and two parallel feature
//! series collapse into a single nine-dimensional distance vector.

use vstd::prelude::*;
use crate::{AgentPos, ints_of, metrics_of, snaps_of, snapshot_ok, trajectory_ok};
use crate::geometry::{abs1, feature_seq, lemma_feature_bounds, swarm_metic, FEATURE_MAX};
use crate::sqrt::{isqrt, lemma_sqrt_floor_le, lemma_sqrt_floor_props, sqrt_floor};

verus! {

/// Longest trajectory the distance computation accepts; keeps the summed
/// squares inside 128 bits.
pub const MAX_TRAJ_LEN: usize = 10_000_000;

/// The feature series of a trajectory: snapshot 0 is consumed as the origin
/// only, every later snapshot contributes one feature vector computed
/// against the origin and its predecessor.
pub open spec fn transform_spec(t: Seq<Seq<AgentPos>>, md: int, dr: int) -> Seq<Seq<int>> {
    Seq::new((t.len() - 1) as nat, |k: int| feature_seq(t[k + 1], t[0], t[k], md, dr))
}

/// Maps the transform over all snapshots after the first: the output has
/// one entry per input snapshot except the origin.
pub fn to_metic(all_swarm_pos: &Vec<Vec<AgentPos>>, swarm_mode_dist: i64, density_radius: i64) -> (r:
    Vec<Vec<i64>>)
    requires
        all_swarm_pos@.len() >= 1,
        trajectory_ok(snaps_of(all_swarm_pos@)),
    ensures
        r@.len() == all_swarm_pos@.len() - 1,
        metrics_of(r@) == transform_spec(
            snaps_of(all_swarm_pos@),
            swarm_mode_dist as int,
            density_radius as int,
        ),
{
    let ghost t = snaps_of(all_swarm_pos@);
    let ghost md = swarm_mode_dist as int;
    let ghost dr = density_radius as int;
    let mut r: Vec<Vec<i64>> = Vec::new();
    let mut k: usize = 1;
    while k < all_swarm_pos.len()
        invariant
            all_swarm_pos@.len() >= 1,
            trajectory_ok(t),
            t == snaps_of(all_swarm_pos@),
            md == swarm_mode_dist as int,
            dr == density_radius as int,
            1 <= k <= all_swarm_pos@.len(),
            r@.len() == k - 1,
            forall|j: int| 0 <= j < k - 1 ==> ints_of(#[trigger] r@[j]@) == feature_seq(
                t[j + 1],
                t[0],
                t[j],
                md,
                dr,
            ),
        decreases all_swarm_pos@.len() - k,
    {
        proof {
            assert(t[k as int] == all_swarm_pos@[k as int]@);
            assert(t[0] == all_swarm_pos@[0]@);
            assert(t[k - 1] == all_swarm_pos@[k - 1]@);
            assert(snapshot_ok(t[k as int]) && snapshot_ok(t[0]) && snapshot_ok(t[k - 1]));
        }
        let m = swarm_metic(
            &all_swarm_pos[k],
            &all_swarm_pos[0],
            &all_swarm_pos[k - 1],
            swarm_mode_dist,
            density_radius,
        );
        r.push(m);
        k = k + 1;
    }
    proof {
        assert(metrics_of(r@) =~= transform_spec(t, md, dr));
    }
    r
}

/// A feature series is well-formed when every vector has the nine features
/// and each stays within `FEATURE_MAX`.
pub open spec fn series_ok(m: Seq<Seq<int>>) -> bool {
    forall|i: int|
        0 <= i < m.len() ==> (#[trigger] m[i]).len() == 9 && forall|d: int|
            0 <= d < 9 ==> abs1(#[trigger] m[i][d]) <= FEATURE_MAX
}

pub proof fn lemma_transform_ok(t: Seq<Seq<AgentPos>>, md: int, dr: int)
    requires
        t.len() >= 1,
        trajectory_ok(t),
    ensures
        series_ok(transform_spec(t, md, dr)),
{
    let m = transform_spec(t, md, dr);
    assert forall|i: int| 0 <= i < m.len() implies (#[trigger] m[i]).len() == 9 && forall|d: int|
        0 <= d < 9 ==> abs1(#[trigger] m[i][d]) <= FEATURE_MAX by {
        lemma_feature_bounds(t[i + 1], t[0], t[i], md, dr);
    }
}

/// Per-dimension sum over the first `n` steps of the squared gap between
/// the two series.
pub open spec fn dim_sq_sum(a: Seq<Seq<int>>, b: Seq<Seq<int>>, d: int, n: int) -> int
    decreases n,
{
    if n <= 0 {
        0
    } else {
        dim_sq_sum(a, b, d, n - 1) + (a[n - 1][d] - b[n - 1][d]) * (a[n - 1][d] - b[n - 1][d])
    }
}

pub proof fn lemma_dim_sq_sum_bound(a: Seq<Seq<int>>, b: Seq<Seq<int>>, d: int, n: int)
    requires
        series_ok(a),
        series_ok(b),
        0 <= d < 9,
        0 <= n <= a.len(),
        n <= b.len(),
    ensures
        0 <= dim_sq_sum(a, b, d, n) <= n * 4_000_000_000_000_000_000_000_000_000_000,
    decreases n,
{
    if n > 0 {
        lemma_dim_sq_sum_bound(a, b, d, n - 1);
        let g = a[n - 1][d] - b[n - 1][d];
        assert(abs1(a[n - 1][d]) <= FEATURE_MAX && abs1(b[n - 1][d]) <= FEATURE_MAX);
        assert(0 <= g * g <= 4_000_000_000_000_000_000_000_000_000_000) by (nonlinear_arith)
            requires
                -2_000_000_000_000_000 <= g <= 2_000_000_000_000_000,
        ;
    }
}

/// Largest value one dimension of the distance vector can take.
pub const DIM_DIST_MAX: i64 = 6_400_000_000_000_000_000;

/// Distance vector between two parallel feature series: per dimension, the
/// flooring square root of the sum over time of the squared gaps.
pub fn series_dist(sim_metic: &Vec<Vec<i64>>, real_metic: &Vec<Vec<i64>>) -> (r: Vec<i64>)
    requires
        sim_metic@.len() == real_metic@.len(),
        sim_metic@.len() <= MAX_TRAJ_LEN,
        series_ok(metrics_of(sim_metic@)),
        series_ok(metrics_of(real_metic@)),
    ensures
        r@.len() == 9,
        forall|d: int|
            0 <= d < 9 ==> #[trigger] r@[d] == sqrt_floor(
                dim_sq_sum(
                    metrics_of(sim_metic@),
                    metrics_of(real_metic@),
                    d,
                    sim_metic@.len() as int,
                ),
            ),
        forall|d: int| 0 <= d < 9 ==> 0 <= #[trigger] r@[d] <= DIM_DIST_MAX,
{
    let ghost a = metrics_of(sim_metic@);
    let ghost b = metrics_of(real_metic@);
    let n = sim_metic.len();
    let mut r: Vec<i64> = Vec::new();
    let mut d: usize = 0;
    while d < 9
        invariant
            a == metrics_of(sim_metic@),
            b == metrics_of(real_metic@),
            series_ok(a),
            series_ok(b),
            n == sim_metic@.len(),
            n == real_metic@.len(),
            n <= MAX_TRAJ_LEN,
            0 <= d <= 9,
            r@.len() == d,
            forall|e: int|
                0 <= e < d ==> #[trigger] r@[e] == sqrt_floor(dim_sq_sum(a, b, e, n as int)),
            forall|e: int| 0 <= e < d ==> 0 <= #[trigger] r@[e] <= DIM_DIST_MAX,
        decreases 9 - d,
    {
        let mut acc: i128 = 0;
        let mut t: usize = 0;
        while t < n
            invariant
                a == metrics_of(sim_metic@),
                b == metrics_of(real_metic@),
                series_ok(a),
                series_ok(b),
                n == sim_metic@.len(),
                n == real_metic@.len(),
                n <= MAX_TRAJ_LEN,
                0 <= d < 9,
                0 <= t <= n,
                acc == dim_sq_sum(a, b, d as int, t as int),
                0 <= acc <= t * 4_000_000_000_000_000_000_000_000_000_000,
            decreases n - t,
        {
            proof {
                lemma_dim_sq_sum_bound(a, b, d as int, t + 1 as int);
                assert(ints_of(sim_metic@[t as int]@) == a[t as int]);
                assert(ints_of(real_metic@[t as int]@) == b[t as int]);
            }
            let x = sim_metic[t][d] as i128;
            let y = real_metic[t][d] as i128;
            let g = x - y;
            acc = acc + g * g;
            t = t + 1;
        }
        proof {
            lemma_sqrt_floor_props(acc as int);
            lemma_sqrt_floor_le(acc as int, DIM_DIST_MAX as int);
            assert(acc <= 40_000_000_000_000_000_000_000_000_000_000_000_000int);
        }
        let root = isqrt(acc as u128);
        r.push(root as i64);
        d = d + 1;
    }
    r
}

/// Distance between two trajectories: both are transformed into feature
/// series, then reduced per dimension to the root of the summed squared
/// gaps across all time steps.
pub fn metric_dist(
    sim_swarm_pos: &Vec<Vec<AgentPos>>,
    real_swarm_pos: &Vec<Vec<AgentPos>>,
    swarm_mode_dist: i64,
    density_radius: i64,
) -> (r: Vec<i64>)
    requires
        sim_swarm_pos@.len() == real_swarm_pos@.len(),
        1 <= sim_swarm_pos@.len() <= MAX_TRAJ_LEN,
        trajectory_ok(snaps_of(sim_swarm_pos@)),
        trajectory_ok(snaps_of(real_swarm_pos@)),
    ensures
        r@.len() == 9,
        forall|d: int|
            0 <= d < 9 ==> #[trigger] r@[d] == sqrt_floor(
                dim_sq_sum(
                    transform_spec(
                        snaps_of(sim_swarm_pos@),
                        swarm_mode_dist as int,
                        density_radius as int,
                    ),
                    transform_spec(
                        snaps_of(real_swarm_pos@),
                        swarm_mode_dist as int,
                        density_radius as int,
                    ),
                    d,
                    sim_swarm_pos@.len() - 1,
                ),
            ),
        forall|d: int| 0 <= d < 9 ==> 0 <= #[trigger] r@[d] <= DIM_DIST_MAX,
{
    proof {
        lemma_transform_ok(
            snaps_of(sim_swarm_pos@),
            swarm_mode_dist as int,
            density_radius as int,
        );
        lemma_transform_ok(
            snaps_of(real_swarm_pos@),
            swarm_mode_dist as int,
            density_radius as int,
        );
    }
    let sim_swarm_metic = to_metic(sim_swarm_pos, swarm_mode_dist, density_radius);
    let real_swarm_metic = to_metic(real_swarm_pos, swarm_mode_dist, density_radius);
    series_dist(&sim_swarm_metic, &real_swarm_metic)
}

} // verus!
