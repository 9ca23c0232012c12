//! Geometry kernel: the nine per-snapshot swarm features.
//!
//! Coordinates are fixed-point integers. The point-to-point distance is
//! `|dx| + dy*dy` (the x term enters linearly, the y term squared); every
//! feature built from it is an exact integer once scaled by `FEATURE_SCALE`
//! (the square of the agent count), which clears the denominators left by
//! averaging over agents and by the centre of mass.

use vstd::prelude::*;
use crate::{AgentPos, ints_of, pos_ok, snapshot_ok, COORD_LIMIT, SWARM_SIZE};

verus! {

/// Every feature is reported in units of `1/FEATURE_SCALE` of the raw
/// distance unit, so that averages over the `SWARM_SIZE` agents and
/// distances to the centre of mass need no rounding.
pub const FEATURE_SCALE: i64 = 225;

/// Magnitude of the gap between two bounded coordinates.
pub open spec fn abs1(a: int) -> int {
    if a < 0 {
        -a
    } else {
        a
    }
}

/// Distance between two positions: the x gap enters by its magnitude,
/// the y gap squared.
pub open spec fn spec_dist(a: AgentPos, b: AgentPos) -> int {
    abs1(a.x - b.x) + (a.y - b.y) * (a.y - b.y)
}

/// Largest value `spec_dist` can take on bounded positions.
pub const DIST_MAX: i64 = 4_002_000_000_000;

pub proof fn lemma_dist_bound(a: AgentPos, b: AgentPos)
    requires
        pos_ok(a),
        pos_ok(b),
    ensures
        0 <= spec_dist(a, b) <= DIST_MAX,
{
    let dy = a.y - b.y;
    assert(-2 * COORD_LIMIT <= dy <= 2 * COORD_LIMIT);
    assert(dy * dy <= 4 * COORD_LIMIT * COORD_LIMIT) by (nonlinear_arith)
        requires
            -2 * COORD_LIMIT <= dy <= 2 * COORD_LIMIT,
    ;
    assert(dy * dy >= 0) by (nonlinear_arith);
}

/// Distance between two agent positions.
pub fn dist(pos1: &AgentPos, pos2: &AgentPos) -> (r: i64)
    requires
        pos_ok(*pos1),
        pos_ok(*pos2),
    ensures
        r == spec_dist(*pos1, *pos2),
        0 <= r <= DIST_MAX,
{
    proof {
        lemma_dist_bound(*pos1, *pos2);
    }
    let dx = pos1.x - pos2.x;
    let dy = pos1.y - pos2.y;
    let ax = if dx < 0 { -dx } else { dx };
    ax + dy * dy
}

/// Sum of the x coordinates of a snapshot.
pub open spec fn sum_x(s: Seq<AgentPos>) -> int
    decreases s.len(),
{
    if s.len() == 0 {
        0
    } else {
        sum_x(s.drop_last()) + s.last().x
    }
}

/// Sum of the y coordinates of a snapshot.
pub open spec fn sum_y(s: Seq<AgentPos>) -> int
    decreases s.len(),
{
    if s.len() == 0 {
        0
    } else {
        sum_y(s.drop_last()) + s.last().y
    }
}

pub proof fn lemma_sum_bounds(s: Seq<AgentPos>)
    requires
        forall|i: int| 0 <= i < s.len() ==> pos_ok(#[trigger] s[i]),
    ensures
        -s.len() * COORD_LIMIT <= sum_x(s) <= s.len() * COORD_LIMIT,
        -s.len() * COORD_LIMIT <= sum_y(s) <= s.len() * COORD_LIMIT,
    decreases s.len(),
{
    if s.len() > 0 {
        lemma_sum_bounds(s.drop_last());
    }
}

/// Coordinate sums of a snapshot: the centre of mass is this pair divided
/// by the agent count, kept unreduced so that it stays exact.
pub fn center_of_mass(swarm_pos: &Vec<AgentPos>) -> (r: (i64, i64))
    requires
        snapshot_ok(swarm_pos@),
    ensures
        r.0 == sum_x(swarm_pos@),
        r.1 == sum_y(swarm_pos@),
{
    let mut sx: i64 = 0;
    let mut sy: i64 = 0;
    let mut i: usize = 0;
    while i < swarm_pos.len()
        invariant
            snapshot_ok(swarm_pos@),
            0 <= i <= swarm_pos@.len(),
            sx == sum_x(swarm_pos@.subrange(0, i as int)),
            sy == sum_y(swarm_pos@.subrange(0, i as int)),
        decreases swarm_pos@.len() - i,
    {
        proof {
            lemma_sum_bounds(swarm_pos@.subrange(0, i as int));
            assert(swarm_pos@.subrange(0, i + 1 as int).drop_last() =~= swarm_pos@.subrange(
                0,
                i as int,
            ));
        }
        sx = sx + swarm_pos[i].x;
        sy = sy + swarm_pos[i].y;
        i = i + 1;
    }
    proof {
        assert(swarm_pos@.subrange(0, swarm_pos@.len() as int) =~= swarm_pos@);
    }
    (sx, sy)
}

/// Largest index-paired distance over the first `n` slots.
pub open spec fn max_dist_upto(s1: Seq<AgentPos>, s2: Seq<AgentPos>, n: int) -> int
    decreases n,
{
    if n <= 0 {
        0
    } else {
        let m = max_dist_upto(s1, s2, n - 1);
        let d = spec_dist(s1[n - 1], s2[n - 1]);
        if d > m {
            d
        } else {
            m
        }
    }
}

pub proof fn lemma_max_dist_bound(s1: Seq<AgentPos>, s2: Seq<AgentPos>, n: int)
    requires
        snapshot_ok(s1),
        snapshot_ok(s2),
        0 <= n <= s1.len(),
    ensures
        0 <= max_dist_upto(s1, s2, n) <= DIST_MAX,
    decreases n,
{
    if n > 0 {
        lemma_max_dist_bound(s1, s2, n - 1);
        lemma_dist_bound(s1[n - 1], s2[n - 1]);
    }
}

/// Maximum over agents (paired by slot) of the distance between the two
/// snapshots' positions.
pub fn max_dist(swarm_pos1: &Vec<AgentPos>, swarm_pos2: &Vec<AgentPos>) -> (r: i64)
    requires
        snapshot_ok(swarm_pos1@),
        snapshot_ok(swarm_pos2@),
    ensures
        r == max_dist_upto(swarm_pos1@, swarm_pos2@, SWARM_SIZE as int),
        0 <= r <= DIST_MAX,
{
    let mut m: i64 = 0;
    let mut i: usize = 0;
    while i < SWARM_SIZE
        invariant
            snapshot_ok(swarm_pos1@),
            snapshot_ok(swarm_pos2@),
            0 <= i <= SWARM_SIZE,
            m == max_dist_upto(swarm_pos1@, swarm_pos2@, i as int),
            0 <= m <= DIST_MAX,
        decreases SWARM_SIZE - i,
    {
        let d = dist(&swarm_pos1[i], &swarm_pos2[i]);
        if d > m {
            m = d;
        }
        i = i + 1;
    }
    m
}

/// Count, among the first `n` slots, of agents at a different position from
/// slot `i` whose distance to it is strictly below `radius`.
pub open spec fn dens_cnt_upto(s: Seq<AgentPos>, radius: int, i: int, n: int) -> int
    decreases n,
{
    if n <= 0 {
        0
    } else {
        dens_cnt_upto(s, radius, i, n - 1) + if s[n - 1] != s[i] && spec_dist(s[i], s[n - 1])
            < radius {
            1int
        } else {
            0int
        }
    }
}

/// Total neighbour count over the first `n` agents.
pub open spec fn dens_sum_upto(s: Seq<AgentPos>, radius: int, n: int) -> int
    decreases n,
{
    if n <= 0 {
        0
    } else {
        dens_sum_upto(s, radius, n - 1) + dens_cnt_upto(s, radius, n - 1, SWARM_SIZE as int)
    }
}

pub proof fn lemma_dens_cnt_bound(s: Seq<AgentPos>, radius: int, i: int, n: int)
    requires
        0 <= i,
        0 <= n,
    ensures
        0 <= dens_cnt_upto(s, radius, i, n) <= n,
        i < n ==> dens_cnt_upto(s, radius, i, n) <= n - 1,
    decreases n,
{
    if n > 0 {
        lemma_dens_cnt_bound(s, radius, i, n - 1);
    }
}

pub proof fn lemma_dens_sum_bound(s: Seq<AgentPos>, radius: int, n: int)
    requires
        0 <= n <= SWARM_SIZE,
    ensures
        0 <= dens_sum_upto(s, radius, n) <= 14 * n,
    decreases n,
{
    assert(SWARM_SIZE == 15);
    if n > 0 {
        lemma_dens_sum_bound(s, radius, n - 1);
        lemma_dens_cnt_bound(s, radius, n - 1, SWARM_SIZE as int);
        assert(dens_sum_upto(s, radius, n) == dens_sum_upto(s, radius, n - 1) + dens_cnt_upto(
            s,
            radius,
            n - 1,
            SWARM_SIZE as int,
        ));
    }
}

/// Average local density: mean over agents of the number of other agents
/// strictly within `radius`, reported scaled by `FEATURE_SCALE`.
pub fn local_density(swarm_pos: &Vec<AgentPos>, radius: i64) -> (r: i64)
    requires
        snapshot_ok(swarm_pos@),
    ensures
        r == SWARM_SIZE * dens_sum_upto(swarm_pos@, radius as int, SWARM_SIZE as int),
        0 <= r <= (SWARM_SIZE - 1) * FEATURE_SCALE,
{
    let s = swarm_pos;
    let mut total: i64 = 0;
    let mut i: usize = 0;
    while i < SWARM_SIZE
        invariant
            snapshot_ok(s@),
            0 <= i <= SWARM_SIZE,
            total == dens_sum_upto(s@, radius as int, i as int),
            0 <= total <= 14 * i,
        decreases SWARM_SIZE - i,
    {
        let mut cnt: i64 = 0;
        let mut j: usize = 0;
        while j < SWARM_SIZE
            invariant
                snapshot_ok(s@),
                0 <= i < SWARM_SIZE,
                0 <= j <= SWARM_SIZE,
                cnt == dens_cnt_upto(s@, radius as int, i as int, j as int),
                0 <= cnt <= j,
            decreases SWARM_SIZE - j,
        {
            if s[j] != s[i] && dist(&s[i], &s[j]) < radius {
                cnt = cnt + 1;
            }
            j = j + 1;
        }
        proof {
            lemma_dens_cnt_bound(s@, radius as int, i as int, SWARM_SIZE as int);
        }
        total = total + cnt;
        i = i + 1;
    }
    (SWARM_SIZE as i64) * total
}

/// Farthest distance from agent `i` to any of the first `n` agents at a
/// different position.
pub open spec fn far_of_upto(s: Seq<AgentPos>, i: int, n: int) -> int
    decreases n,
{
    if n <= 0 {
        0
    } else {
        let m = far_of_upto(s, i, n - 1);
        let d = spec_dist(s[i], s[n - 1]);
        if s[n - 1] != s[i] && d > m {
            d
        } else {
            m
        }
    }
}

/// Sum over the first `n` agents of their farthest-neighbour distance.
pub open spec fn far_sum_upto(s: Seq<AgentPos>, n: int) -> int
    decreases n,
{
    if n <= 0 {
        0
    } else {
        far_sum_upto(s, n - 1) + far_of_upto(s, n - 1, SWARM_SIZE as int)
    }
}

pub proof fn lemma_far_of_bound(s: Seq<AgentPos>, i: int, n: int)
    requires
        snapshot_ok(s),
        0 <= i < s.len(),
        0 <= n <= s.len(),
    ensures
        0 <= far_of_upto(s, i, n) <= DIST_MAX,
    decreases n,
{
    if n > 0 {
        lemma_far_of_bound(s, i, n - 1);
        lemma_dist_bound(s[i], s[n - 1]);
    }
}

pub proof fn lemma_far_sum_bound(s: Seq<AgentPos>, n: int)
    requires
        snapshot_ok(s),
        0 <= n <= s.len(),
    ensures
        0 <= far_sum_upto(s, n) <= n * DIST_MAX,
    decreases n,
{
    if n > 0 {
        lemma_far_sum_bound(s, n - 1);
        lemma_far_of_bound(s, n - 1, SWARM_SIZE as int);
    }
}

/// Mean over agents of the farthest distance to any other agent (the
/// neighbour statistic keeps the maximum, not the minimum), reported
/// scaled by `FEATURE_SCALE`.
pub fn nears_neighbor_distance(swarm_pos: &Vec<AgentPos>) -> (r: i64)
    requires
        snapshot_ok(swarm_pos@),
    ensures
        r == SWARM_SIZE * far_sum_upto(swarm_pos@, SWARM_SIZE as int),
        0 <= r <= FEATURE_SCALE * DIST_MAX,
{
    let s = swarm_pos;
    let mut total: i64 = 0;
    let mut i: usize = 0;
    while i < SWARM_SIZE
        invariant
            snapshot_ok(s@),
            0 <= i <= SWARM_SIZE,
            total == far_sum_upto(s@, i as int),
            0 <= total <= i * DIST_MAX,
        decreases SWARM_SIZE - i,
    {
        let mut far: i64 = 0;
        let mut j: usize = 0;
        while j < SWARM_SIZE
            invariant
                snapshot_ok(s@),
                0 <= i < SWARM_SIZE,
                0 <= j <= SWARM_SIZE,
                far == far_of_upto(s@, i as int, j as int),
                0 <= far <= DIST_MAX,
            decreases SWARM_SIZE - j,
        {
            if s[j] != s[i] {
                let d = dist(&s[i], &s[j]);
                if d > far {
                    far = d;
                }
            }
            j = j + 1;
        }
        total = total + far;
        i = i + 1;
    }
    (SWARM_SIZE as i64) * total
}

/// Distance from the (exact) centre of mass given by the coordinate sums
/// `(sx, sy)` to position `p`, scaled by `FEATURE_SCALE`.
pub open spec fn spec_dist_com(sx: int, sy: int, p: AgentPos) -> int {
    SWARM_SIZE * abs1(SWARM_SIZE * p.x - sx) + (SWARM_SIZE * p.y - sy) * (SWARM_SIZE * p.y - sy)
}

/// Largest value `spec_dist_com` can take on bounded inputs.
pub const COM_DIST_MAX: i64 = 900_000_450_000_000;

pub proof fn lemma_dist_com_bound(sx: int, sy: int, p: AgentPos)
    requires
        pos_ok(p),
        abs1(sx) <= SWARM_SIZE * COORD_LIMIT,
        abs1(sy) <= SWARM_SIZE * COORD_LIMIT,
    ensures
        0 <= SWARM_SIZE * abs1(SWARM_SIZE * p.x - sx) <= 450_000_000,
        0 <= (SWARM_SIZE * p.y - sy) * (SWARM_SIZE * p.y - sy) <= 900_000_000_000_000,
        0 <= spec_dist_com(sx, sy, p) <= COM_DIST_MAX,
{
    let gx = SWARM_SIZE * p.x - sx;
    let gy = SWARM_SIZE * p.y - sy;
    assert(SWARM_SIZE == 15 && COORD_LIMIT == 1_000_000);
    assert(-30_000_000 <= gx <= 30_000_000 && -30_000_000 <= gy <= 30_000_000);
    assert(gy * gy <= 900_000_000_000_000 && gy * gy >= 0) by (nonlinear_arith)
        requires
            -30_000_000 <= gy <= 30_000_000,
    ;
    assert(0 <= abs1(gx) <= 30_000_000);
    assert(SWARM_SIZE * abs1(gx) == 15 * abs1(gx));
}

/// Largest scaled centre-of-mass distance over the first `n` agents.
pub open spec fn max_radius_upto(s: Seq<AgentPos>, sx: int, sy: int, n: int) -> int
    decreases n,
{
    if n <= 0 {
        0
    } else {
        let m = max_radius_upto(s, sx, sy, n - 1);
        let d = spec_dist_com(sx, sy, s[n - 1]);
        if d > m {
            d
        } else {
            m
        }
    }
}

pub proof fn lemma_max_radius_bound(s: Seq<AgentPos>, sx: int, sy: int, n: int)
    requires
        snapshot_ok(s),
        abs1(sx) <= SWARM_SIZE * COORD_LIMIT,
        abs1(sy) <= SWARM_SIZE * COORD_LIMIT,
        0 <= n <= s.len(),
    ensures
        0 <= max_radius_upto(s, sx, sy, n) <= COM_DIST_MAX,
    decreases n,
{
    if n > 0 {
        lemma_max_radius_bound(s, sx, sy, n - 1);
        lemma_dist_com_bound(sx, sy, s[n - 1]);
    }
}

/// Maximum over agents of the distance to the centre of mass (the same
/// point broadcast to every agent), scaled by `FEATURE_SCALE`; the centre
/// is handed over as the coordinate sums.
pub fn max_radius(swarm_pos: &Vec<AgentPos>, center_of_mass: &(i64, i64)) -> (r: i64)
    requires
        snapshot_ok(swarm_pos@),
        abs1(center_of_mass.0 as int) <= SWARM_SIZE * COORD_LIMIT,
        abs1(center_of_mass.1 as int) <= SWARM_SIZE * COORD_LIMIT,
    ensures
        r == max_radius_upto(
            swarm_pos@,
            center_of_mass.0 as int,
            center_of_mass.1 as int,
            SWARM_SIZE as int,
        ),
        0 <= r <= COM_DIST_MAX,
{
    let sx = center_of_mass.0;
    let sy = center_of_mass.1;
    let mut m: i64 = 0;
    let mut i: usize = 0;
    while i < SWARM_SIZE
        invariant
            snapshot_ok(swarm_pos@),
            abs1(sx as int) <= SWARM_SIZE * COORD_LIMIT,
            abs1(sy as int) <= SWARM_SIZE * COORD_LIMIT,
            0 <= i <= SWARM_SIZE,
            m == max_radius_upto(swarm_pos@, sx as int, sy as int, i as int),
            0 <= m <= COM_DIST_MAX,
        decreases SWARM_SIZE - i,
    {
        let p = swarm_pos[i];
        proof {
            lemma_dist_com_bound(sx as int, sy as int, p);
        }
        let gx = (SWARM_SIZE as i64) * p.x - sx;
        let gy = (SWARM_SIZE as i64) * p.y - sy;
        let ax = if gx < 0 { -gx } else { gx };
        let d = (SWARM_SIZE as i64) * ax + gy * gy;
        if d > m {
            m = d;
        }
        i = i + 1;
    }
    m
}

/// Among the first `n` slots, the number of agents at a different position
/// from slot `i` whose x coordinate is strictly within `md` of agent `i`'s.
pub open spec fn cnt_x_upto(s: Seq<AgentPos>, md: int, i: int, n: int) -> int
    decreases n,
{
    if n <= 0 {
        0
    } else {
        cnt_x_upto(s, md, i, n - 1) + if s[n - 1] != s[i] && abs1(s[n - 1].x - s[i].x) < md {
            1int
        } else {
            0int
        }
    }
}

/// As `cnt_x_upto`, on the y axis.
pub open spec fn cnt_y_upto(s: Seq<AgentPos>, md: int, i: int, n: int) -> int
    decreases n,
{
    if n <= 0 {
        0
    } else {
        cnt_y_upto(s, md, i, n - 1) + if s[n - 1] != s[i] && abs1(s[n - 1].y - s[i].y) < md {
            1int
        } else {
            0int
        }
    }
}

pub proof fn lemma_cnt_xy_bound(s: Seq<AgentPos>, md: int, i: int, n: int)
    requires
        0 <= n,
    ensures
        0 <= cnt_x_upto(s, md, i, n) <= n,
        0 <= cnt_y_upto(s, md, i, n) <= n,
    decreases n,
{
    if n > 0 {
        lemma_cnt_xy_bound(s, md, i, n - 1);
    }
}

/// Slot and count of the first agent whose x-frequency is strictly largest
/// among the first `n` agents (strict comparison keeps the earliest maximum).
pub open spec fn best_x(s: Seq<AgentPos>, md: int, n: int) -> (int, int)
    decreases n,
{
    if n <= 0 {
        (0int, 0int)
    } else {
        let prev = best_x(s, md, n - 1);
        let c = cnt_x_upto(s, md, n - 1, SWARM_SIZE as int);
        if c > prev.1 {
            (n - 1, c)
        } else {
            prev
        }
    }
}

/// As `best_x`, on the y axis.
pub open spec fn best_y(s: Seq<AgentPos>, md: int, n: int) -> (int, int)
    decreases n,
{
    if n <= 0 {
        (0int, 0int)
    } else {
        let prev = best_y(s, md, n - 1);
        let c = cnt_y_upto(s, md, n - 1, SWARM_SIZE as int);
        if c > prev.1 {
            (n - 1, c)
        } else {
            prev
        }
    }
}

pub proof fn lemma_best_range(s: Seq<AgentPos>, md: int, n: int)
    requires
        1 <= n,
    ensures
        0 <= best_x(s, md, n).0 < n,
        0 <= best_y(s, md, n).0 < n,
    decreases n,
{
    assert(best_x(s, md, 0) == (0int, 0int));
    assert(best_y(s, md, 0) == (0int, 0int));
    if n > 1 {
        lemma_best_range(s, md, n - 1);
    }
}

/// The mode location combines the x of the x-axis winner with the y of the
/// y-axis winner; the feature is its distance to the centre of mass, scaled
/// by `FEATURE_SCALE`.
pub open spec fn mode_spec(s: Seq<AgentPos>, md: int, sx: int, sy: int) -> int {
    spec_dist_com(
        sx,
        sy,
        AgentPos {
            x: s[best_x(s, md, SWARM_SIZE as int).0].x,
            y: s[best_y(s, md, SWARM_SIZE as int).0].y,
        },
    )
}

/// Distance from the centre of mass (handed over as the coordinate sums) to
/// the swarm mode location, scaled by `FEATURE_SCALE`. On each axis the mode
/// is the coordinate of the first agent with the strictly largest number of
/// other agents within `swarm_mode_dist` on that axis.
pub fn swarm_mode_index(
    swarm_pos: &Vec<AgentPos>,
    center_of_mass: &(i64, i64),
    swarm_mode_dist: i64,
) -> (r: i64)
    requires
        snapshot_ok(swarm_pos@),
        abs1(center_of_mass.0 as int) <= SWARM_SIZE * COORD_LIMIT,
        abs1(center_of_mass.1 as int) <= SWARM_SIZE * COORD_LIMIT,
    ensures
        r == mode_spec(
            swarm_pos@,
            swarm_mode_dist as int,
            center_of_mass.0 as int,
            center_of_mass.1 as int,
        ),
        0 <= r <= COM_DIST_MAX,
{
    let s = swarm_pos;
    let ghost md = swarm_mode_dist as int;
    let mut bix: usize = 0;
    let mut bcx: i64 = 0;
    let mut biy: usize = 0;
    let mut bcy: i64 = 0;
    let mut i: usize = 0;
    while i < SWARM_SIZE
        invariant
            snapshot_ok(s@),
            0 <= i <= SWARM_SIZE,
            bix as int == best_x(s@, md, i as int).0,
            bcx as int == best_x(s@, md, i as int).1,
            biy as int == best_y(s@, md, i as int).0,
            bcy as int == best_y(s@, md, i as int).1,
            0 <= bix < SWARM_SIZE,
            0 <= biy < SWARM_SIZE,
            md == swarm_mode_dist as int,
        decreases SWARM_SIZE - i,
    {
        let mut cx: i64 = 0;
        let mut cy: i64 = 0;
        let mut j: usize = 0;
        while j < SWARM_SIZE
            invariant
                snapshot_ok(s@),
                0 <= i < SWARM_SIZE,
                0 <= j <= SWARM_SIZE,
                cx == cnt_x_upto(s@, md, i as int, j as int),
                cy == cnt_y_upto(s@, md, i as int, j as int),
                0 <= cx <= j,
                0 <= cy <= j,
                md == swarm_mode_dist as int,
            decreases SWARM_SIZE - j,
        {
            if s[j] != s[i] {
                let dx = s[j].x - s[i].x;
                let ax = if dx < 0 { -dx } else { dx };
                if ax < swarm_mode_dist {
                    cx = cx + 1;
                }
                let dy = s[j].y - s[i].y;
                let ay = if dy < 0 { -dy } else { dy };
                if ay < swarm_mode_dist {
                    cy = cy + 1;
                }
            }
            j = j + 1;
        }
        if cx > bcx {
            bcx = cx;
            bix = i;
        }
        if cy > bcy {
            bcy = cy;
            biy = i;
        }
        i = i + 1;
    }
    let mx = s[bix].x;
    let my = s[biy].y;
    let ghost mode_pos = AgentPos { x: mx, y: my };
    proof {
        lemma_dist_com_bound(center_of_mass.0 as int, center_of_mass.1 as int, mode_pos);
        assert(SWARM_SIZE == 15);
    }
    let gx = (SWARM_SIZE as i64) * mx - center_of_mass.0;
    let gy = (SWARM_SIZE as i64) * my - center_of_mass.1;
    let ax = if gx < 0 { -gx } else { gx };
    (SWARM_SIZE as i64) * ax + gy * gy
}

/// Squared Euclidean gap between two positions (the pairwise distance used
/// by the beta index takes a true square root).
pub open spec fn spec_esq(a: AgentPos, b: AgentPos) -> int {
    (a.x - b.x) * (a.x - b.x) + (a.y - b.y) * (a.y - b.y)
}

pub proof fn lemma_esq_bound(a: AgentPos, b: AgentPos)
    requires
        pos_ok(a),
        pos_ok(b),
    ensures
        0 <= (a.x - b.x) * (a.x - b.x) <= 4_000_000_000_000,
        0 <= (a.y - b.y) * (a.y - b.y) <= 4_000_000_000_000,
        0 <= spec_esq(a, b) <= 8_000_000_000_000,
{
    let dx = a.x - b.x;
    let dy = a.y - b.y;
    assert(-2_000_000 <= dx <= 2_000_000 && -2_000_000 <= dy <= 2_000_000);
    assert(0 <= dx * dx <= 4_000_000_000_000 && 0 <= dy * dy <= 4_000_000_000_000)
        by (nonlinear_arith)
        requires
            -2_000_000 <= dx <= 2_000_000,
            -2_000_000 <= dy <= 2_000_000,
    ;
}

/// Flooring Euclidean distance between agents `i` and `j`.
pub open spec fn pair_dist(s: Seq<AgentPos>, i: int, j: int) -> int {
    crate::sqrt::sqrt_floor(spec_esq(s[i], s[j]))
}

pub proof fn lemma_pair_dist_bound(s: Seq<AgentPos>, i: int, j: int)
    requires
        snapshot_ok(s),
        0 <= i < s.len(),
        0 <= j < s.len(),
    ensures
        0 <= pair_dist(s, i, j) <= 2_900_000,
{
    lemma_esq_bound(s[i], s[j]);
    crate::sqrt::lemma_sqrt_floor_props(spec_esq(s[i], s[j]));
    crate::sqrt::lemma_sqrt_floor_le(spec_esq(s[i], s[j]), 2_900_000);
}

/// Sum of the pair distances from agent `i` to agents `i+1 .. j`.
pub open spec fn row_total(s: Seq<AgentPos>, i: int, j: int) -> int
    decreases j - i,
{
    if j <= i + 1 {
        0
    } else {
        row_total(s, i, j - 1) + pair_dist(s, i, j - 1)
    }
}

/// Sum of all pair distances with both ends below `n`.
pub open spec fn total_upto(s: Seq<AgentPos>, n: int) -> int
    decreases n,
{
    if n <= 0 {
        0
    } else {
        total_upto(s, n - 1) + row_total(s, n - 1, SWARM_SIZE as int)
    }
}

pub proof fn lemma_row_total_bound(s: Seq<AgentPos>, i: int, j: int)
    requires
        snapshot_ok(s),
        0 <= i < s.len(),
        j <= s.len(),
    ensures
        0 <= row_total(s, i, j),
        j > i ==> row_total(s, i, j) <= 2_900_000 * (j - i - 1),
    decreases j - i,
{
    if j > i + 1 {
        lemma_row_total_bound(s, i, j - 1);
        lemma_pair_dist_bound(s, i, j - 1);
    }
}

/// Counts how many slots `i+1 .. j` lie strictly below the average pair
/// distance, the comparison cleared of its divisor: `105 * d < t`.
pub open spec fn row_cnt(s: Seq<AgentPos>, i: int, j: int, t: int) -> int
    decreases j - i,
{
    if j <= i + 1 {
        0
    } else {
        row_cnt(s, i, j - 1, t) + if 105 * pair_dist(s, i, j - 1) < t {
            1int
        } else {
            0int
        }
    }
}

/// Connected-pair count over all pairs with both ends below `n`.
pub open spec fn cnt_upto(s: Seq<AgentPos>, n: int, t: int) -> int
    decreases n,
{
    if n <= 0 {
        0
    } else {
        cnt_upto(s, n - 1, t) + row_cnt(s, n - 1, SWARM_SIZE as int, t)
    }
}

pub proof fn lemma_row_cnt_bound(s: Seq<AgentPos>, i: int, j: int, t: int)
    ensures
        0 <= row_cnt(s, i, j, t) <= if j - i - 1 >= 0 {
            j - i - 1
        } else {
            0
        },
    decreases j - i,
{
    if j > i + 1 {
        lemma_row_cnt_bound(s, i, j - 1, t);
    }
}

/// At most all `n * (n-1) / 2` pairs can count, stated cleared of the
/// divisor: `2 * cnt <= n * (29 - n)` sums the per-row caps `14 - i`.
pub proof fn lemma_cnt_upto_bound(s: Seq<AgentPos>, n: int, t: int)
    requires
        0 <= n <= SWARM_SIZE,
    ensures
        0 <= 2 * cnt_upto(s, n, t) <= n * (29 - n),
    decreases n,
{
    if n > 0 {
        lemma_cnt_upto_bound(s, n - 1, t);
        lemma_row_cnt_bound(s, n - 1, SWARM_SIZE as int, t);
        assert(row_cnt(s, n - 1, 15, t) <= 15 - n);
        assert((n - 1) * (29 - (n - 1)) + 2 * (15 - n) == n * (29 - n)) by (nonlinear_arith);
    }
}

pub proof fn lemma_total_upto_bound(s: Seq<AgentPos>, n: int)
    requires
        snapshot_ok(s),
        0 <= n <= s.len(),
    ensures
        0 <= total_upto(s, n) <= n * 40_600_000,
    decreases n,
{
    if n > 0 {
        lemma_total_upto_bound(s, n - 1);
        lemma_row_total_bound(s, n - 1, SWARM_SIZE as int);
    }
}

/// The connected-pair count of the beta index, scaled by `FEATURE_SCALE`:
/// a pair is connected when its flooring Euclidean distance lies strictly
/// below the average pair distance; the count is divided by the agent count.
pub open spec fn beta_spec(s: Seq<AgentPos>) -> int {
    15 * cnt_upto(s, SWARM_SIZE as int, total_upto(s, SWARM_SIZE as int))
}

/// Beta index: the number of agent pairs closer than the average pairwise
/// distance, over the agent count, scaled by `FEATURE_SCALE`. Bounded by
/// seven times the scale: at most half of `SWARM_SIZE * (SWARM_SIZE - 1)`
/// ordered pairs count.
pub fn beta_index(swarm_pos: &Vec<AgentPos>) -> (r: i64)
    requires
        snapshot_ok(swarm_pos@),
    ensures
        r == beta_spec(swarm_pos@),
        0 <= r <= 7 * FEATURE_SCALE,
{
    let s = swarm_pos;
    let mut total: i64 = 0;
    let mut i: usize = 0;
    while i < SWARM_SIZE
        invariant
            snapshot_ok(s@),
            0 <= i <= SWARM_SIZE,
            total == total_upto(s@, i as int),
            0 <= total <= 40_600_000 * i,
        decreases SWARM_SIZE - i,
    {
        let mut j: usize = i + 1;
        while j < SWARM_SIZE
            invariant
                snapshot_ok(s@),
                0 <= i < SWARM_SIZE,
                i + 1 <= j <= SWARM_SIZE,
                total == total_upto(s@, i as int) + row_total(s@, i as int, j as int),
                0 <= total <= 40_600_000 * i + 2_900_000 * (j - i - 1),
            decreases SWARM_SIZE - j,
        {
            proof {
                lemma_esq_bound(s@[i as int], s@[j as int]);
                lemma_pair_dist_bound(s@, i as int, j as int);
            }
            let dx = s[i].x - s[j].x;
            let dy = s[i].y - s[j].y;
            let esq = dx * dx + dy * dy;
            let d = crate::sqrt::isqrt(esq as u128);
            total = total + (d as i64);
            j = j + 1;
        }
        proof {
            lemma_total_upto_bound(s@, i as int);
            lemma_row_total_bound(s@, i as int, SWARM_SIZE as int);
        }
        i = i + 1;
    }
    let mut count: i64 = 0;
    let mut i: usize = 0;
    while i < SWARM_SIZE
        invariant
            snapshot_ok(s@),
            0 <= i <= SWARM_SIZE,
            total == total_upto(s@, SWARM_SIZE as int),
            count == cnt_upto(s@, i as int, total as int),
            0 <= count <= 15 * i,
        decreases SWARM_SIZE - i,
    {
        let mut j: usize = i + 1;
        while j < SWARM_SIZE
            invariant
                snapshot_ok(s@),
                0 <= i < SWARM_SIZE,
                i + 1 <= j <= SWARM_SIZE,
                total == total_upto(s@, SWARM_SIZE as int),
                count == cnt_upto(s@, i as int, total as int) + row_cnt(
                    s@,
                    i as int,
                    j as int,
                    total as int,
                ),
                0 <= count <= 15 * i + (j - i),
            decreases SWARM_SIZE - j,
        {
            proof {
                lemma_esq_bound(s@[i as int], s@[j as int]);
                lemma_pair_dist_bound(s@, i as int, j as int);
                lemma_total_upto_bound(s@, SWARM_SIZE as int);
            }
            let dx = s[i].x - s[j].x;
            let dy = s[i].y - s[j].y;
            let esq = dx * dx + dy * dy;
            let d = crate::sqrt::isqrt(esq as u128);
            if 105 * (d as i64) < total {
                count = count + 1;
            }
            j = j + 1;
        }
        proof {
            lemma_row_cnt_bound(s@, i as int, SWARM_SIZE as int, total as int);
        }
        i = i + 1;
    }
    proof {
        lemma_cnt_upto_bound(s@, SWARM_SIZE as int, total as int);
        assert(FEATURE_SCALE == 225);
    }
    15 * count
}


/// Largest magnitude any feature can take on well-formed snapshots.
pub const FEATURE_MAX: i64 = 1_000_000_000_000_000;

/// The nine features of one snapshot, each scaled by `FEATURE_SCALE`:
/// centre of mass x and y, largest shift since the previous snapshot, mode
/// index, longest path from the origin snapshot, largest centre distance,
/// local density, farthest-neighbour statistic, beta index.
pub open spec fn feature_seq(
    cur: Seq<AgentPos>,
    org: Seq<AgentPos>,
    prev: Seq<AgentPos>,
    md: int,
    dr: int,
) -> Seq<int> {
    seq![
        15 * sum_x(cur),
        15 * sum_y(cur),
        225 * max_dist_upto(cur, prev, SWARM_SIZE as int),
        mode_spec(cur, md, sum_x(cur), sum_y(cur)),
        225 * max_dist_upto(cur, org, SWARM_SIZE as int),
        max_radius_upto(cur, sum_x(cur), sum_y(cur), SWARM_SIZE as int),
        15 * dens_sum_upto(cur, dr, SWARM_SIZE as int),
        15 * far_sum_upto(cur, SWARM_SIZE as int),
        beta_spec(cur),
    ]
}

pub proof fn lemma_feature_bounds(
    cur: Seq<AgentPos>,
    org: Seq<AgentPos>,
    prev: Seq<AgentPos>,
    md: int,
    dr: int,
)
    requires
        snapshot_ok(cur),
        snapshot_ok(org),
        snapshot_ok(prev),
    ensures
        forall|k: int|
            0 <= k < 9 ==> abs1(#[trigger] feature_seq(cur, org, prev, md, dr)[k]) <= FEATURE_MAX,
{
    lemma_sum_bounds(cur);
    lemma_max_dist_bound(cur, prev, SWARM_SIZE as int);
    lemma_max_dist_bound(cur, org, SWARM_SIZE as int);
    lemma_best_range(cur, md, SWARM_SIZE as int);
    lemma_dist_com_bound(
        sum_x(cur),
        sum_y(cur),
        AgentPos {
            x: cur[best_x(cur, md, SWARM_SIZE as int).0].x,
            y: cur[best_y(cur, md, SWARM_SIZE as int).0].y,
        },
    );
    lemma_max_radius_bound(cur, sum_x(cur), sum_y(cur), SWARM_SIZE as int);
    lemma_dens_sum_bound(cur, dr, SWARM_SIZE as int);
    lemma_far_sum_bound(cur, SWARM_SIZE as int);
    lemma_cnt_upto_bound(cur, SWARM_SIZE as int, total_upto(cur, SWARM_SIZE as int));
}

/// The nine swarm features of one snapshot, relative to the trajectory's
/// origin snapshot and to the previous snapshot. The first two entries are
/// the centre of mass; the rest are the scalar features, in the fixed order
/// of `feature_seq`.
pub fn swarm_metic(
    swarm_pos: &Vec<AgentPos>,
    swarm_origen: &Vec<AgentPos>,
    pre_swarm_pos: &Vec<AgentPos>,
    swarm_mode_dist: i64,
    density_radius: i64,
) -> (r: Vec<i64>)
    requires
        snapshot_ok(swarm_pos@),
        snapshot_ok(swarm_origen@),
        snapshot_ok(pre_swarm_pos@),
    ensures
        ints_of(r@) == feature_seq(
            swarm_pos@,
            swarm_origen@,
            pre_swarm_pos@,
            swarm_mode_dist as int,
            density_radius as int,
        ),
{
    proof {
        lemma_sum_bounds(swarm_pos@);
        lemma_max_dist_bound(swarm_pos@, pre_swarm_pos@, SWARM_SIZE as int);
        lemma_max_dist_bound(swarm_pos@, swarm_origen@, SWARM_SIZE as int);
        assert(SWARM_SIZE == 15 && COORD_LIMIT == 1_000_000 && FEATURE_SCALE == 225);
    }
    let com = center_of_mass(swarm_pos);
    let max_swarm_shift = max_dist(swarm_pos, pre_swarm_pos);
    let mode = swarm_mode_index(swarm_pos, &com, swarm_mode_dist);
    let longest_path = max_dist(swarm_pos, swarm_origen);
    let radius = max_radius(swarm_pos, &com);
    let density = local_density(swarm_pos, density_radius);
    let neighbor = nears_neighbor_distance(swarm_pos);
    let beta = beta_index(swarm_pos);
    let mut r: Vec<i64> = Vec::new();
    r.push((SWARM_SIZE as i64) * com.0);
    r.push((SWARM_SIZE as i64) * com.1);
    r.push(FEATURE_SCALE * max_swarm_shift);
    r.push(mode);
    r.push(FEATURE_SCALE * longest_path);
    r.push(radius);
    r.push(density);
    r.push(neighbor);
    r.push(beta);
    proof {
        assert(ints_of(r@) =~= feature_seq(
            swarm_pos@,
            swarm_origen@,
            pre_swarm_pos@,
            swarm_mode_dist as int,
            density_radius as int,
        ));
    }
    r
}

} // verus!\n