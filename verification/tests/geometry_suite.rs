use swarm_fitness::geometry::{
    beta_index, center_of_mass, dist, local_density, max_dist, max_radius,
    nears_neighbor_distance, swarm_metic, swarm_mode_index, FEATURE_SCALE,
};
use swarm_fitness::sqrt::isqrt;
use swarm_fitness::AgentPos;

fn pos(x: i64, y: i64) -> AgentPos {
    AgentPos { x, y }
}

fn grid_row() -> Vec<AgentPos> {
    // 15 agents on a line, 1000 units apart
    (0..15).map(|k| pos(k * 1000, 0)).collect()
}

fn scattered() -> Vec<AgentPos> {
    // generic positions with no ties anywhere
    (0..15)
        .map(|k: i64| pos(k * k * 37 + 11 * k, k * 13 + (k % 4) * 501))
        .collect()
}

#[test]
fn dist_uses_linear_x_and_squared_y() {
    // |dx| + dy * dy, not the Euclidean norm
    assert_eq!(dist(&pos(0, 0), &pos(3, 4)), 3 + 16);
    assert_eq!(dist(&pos(-5, 2), &pos(5, -2)), 10 + 16);
    assert_eq!(dist(&pos(7, 7), &pos(7, 7)), 0);
}

#[test]
fn isqrt_floors() {
    assert_eq!(isqrt(0), 0);
    assert_eq!(isqrt(15), 3);
    assert_eq!(isqrt(16), 4);
    assert_eq!(isqrt(999_999), 999);
    assert_eq!(isqrt(u64::MAX as u128), 4_294_967_295);
}

#[test]
fn center_of_mass_returns_coordinate_sums() {
    let s = grid_row();
    let (sx, sy) = center_of_mass(&s);
    assert_eq!(sx, (0..15).map(|k| k * 1000).sum::<i64>());
    assert_eq!(sy, 0);
}

#[test]
fn max_dist_is_pairwise_maximum() {
    let a = grid_row();
    let mut b = grid_row();
    b[3] = pos(3 * 1000 + 40, 2);
    // agent 3 moved by |40| + 2*2 = 44; everyone else is still
    assert_eq!(max_dist(&a, &b), 44);
    assert_eq!(max_dist(&a, &a), 0);
}

#[test]
fn local_density_matches_brute_force() {
    let s = grid_row();
    let radius = 2500;
    let mut total = 0i64;
    for i in 0..15 {
        for j in 0..15 {
            if s[j] != s[i] && dist(&s[i], &s[j]) < radius {
                total += 1;
            }
        }
    }
    assert_eq!(local_density(&s, radius), 15 * total);
}

#[test]
fn local_density_bounds() {
    // everyone on the same spot: same-position agents are not neighbours
    let s = vec![pos(5, 5); 15];
    assert_eq!(local_density(&s, 1_000_000), 0);
    let s = grid_row();
    let d = local_density(&s, i64::MAX / 4);
    assert!(0 <= d && d <= 14 * FEATURE_SCALE);
}

#[test]
fn beta_index_within_bounds() {
    let b = beta_index(&scattered());
    assert!(0 <= b && b <= 7 * FEATURE_SCALE);
    // a line of agents: the middle pairs are closer than the average
    let b = beta_index(&grid_row());
    assert!(0 <= b && b <= 7 * FEATURE_SCALE);
}

#[test]
fn nears_neighbor_is_farthest_semantics() {
    // 14 agents at the origin, one far away on x
    let mut s = vec![pos(0, 0); 15];
    s[14] = pos(1000, 0);
    // for each origin agent the farthest distinct agent is at distance 1000;
    // for the far agent it is 1000 as well: sum = 15000, scaled by 15
    assert_eq!(nears_neighbor_distance(&s), 15 * 15_000);
}

#[test]
fn max_radius_of_symmetric_pair() {
    // agents at x = 0 (14 of them) and one at x = 1500
    let mut s = vec![pos(0, 0); 15];
    s[0] = pos(1500, 0);
    let com = center_of_mass(&s);
    assert_eq!(com.0, 1500);
    // scaled distance: 15*|15*x - 1500| + 0
    // for x=1500: 15*21000 = 315000 ; for x=0: 15*1500 = 22500
    assert_eq!(max_radius(&s, &com), 315_000);
}

#[test]
fn mode_index_picks_densest_axis_locations() {
    // three clusters on x: slots 0-9 at x=0, 10-14 at x=9000; distinct y
    let mut s = Vec::new();
    for k in 0..10 {
        s.push(pos(0, k * 100));
    }
    for k in 10..15 {
        s.push(pos(9000, k as i64 * 100));
    }
    let com = center_of_mass(&s);
    // x winner: an agent at x=0 (9 close others vs 4); y counts with
    // md=150: each agent has up to 2 within 150 on y; first strict maximum
    // is slot 1 (y=100, neighbours y=0 and y=200)
    let m = swarm_mode_index(&s, &com, 150);
    let sx = com.0;
    let sy = com.1;
    let expect = {
        let mx = 0i64;
        let my = 100i64;
        let gx = (15 * mx - sx).abs();
        let gy = 15 * my - sy;
        15 * gx + gy * gy
    };
    assert_eq!(m, expect);
}

#[test]
fn swarm_metic_orders_the_nine_features() {
    let s = scattered();
    let m = swarm_metic(&s, &s, &s, 100, 2500);
    assert_eq!(m.len(), 9);
    let (sx, sy) = center_of_mass(&s);
    assert_eq!(m[0], 15 * sx);
    assert_eq!(m[1], 15 * sy);
    assert_eq!(m[2], 0); // no shift against itself
    assert_eq!(m[4], 0); // no path against itself
    assert_eq!(m[5], max_radius(&s, &(sx, sy)));
    assert_eq!(m[6], local_density(&s, 2500));
    assert_eq!(m[7], nears_neighbor_distance(&s));
    assert_eq!(m[8], beta_index(&s));
    assert_eq!(m[3], swarm_mode_index(&s, &(sx, sy), 100));
}

#[test]
fn features_invariant_under_agent_permutation() {
    let cur = scattered();
    let prev = grid_row();
    let org: Vec<AgentPos> = (0..15).map(|k: i64| pos(k * 7, k * 3)).collect();
    // rotate all three snapshots by the same permutation
    let perm = |s: &Vec<AgentPos>| -> Vec<AgentPos> {
        (0..15).map(|i| s[(i + 6) % 15]).collect()
    };
    let m1 = swarm_metic(&cur, &org, &prev, 100, 2500);
    let m2 = swarm_metic(&perm(&cur), &perm(&org), &perm(&prev), 100, 2500);
    for d in [0usize, 1, 2, 4, 5, 6, 7, 8] {
        assert_eq!(m1[d], m2[d], "feature {} changed under permutation", d);
    }
}
