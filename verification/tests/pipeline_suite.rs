use swarm_fitness::evaluator::{ConfigError, EvalError, Evaluator, UNIT};
use swarm_fitness::transform::{metric_dist, to_metic};
use swarm_fitness::AgentPos;

fn pos(x: i64, y: i64) -> AgentPos {
    AgentPos { x, y }
}

fn snapshot(seed: i64) -> Vec<AgentPos> {
    (0..15).map(|k: i64| pos(k * 100 + seed, k * 10 - seed)).collect()
}

fn stationary_trajectory(len: usize) -> Vec<Vec<AgentPos>> {
    (0..len).map(|_| snapshot(0)).collect()
}

fn bounds() -> (Vec<i64>, Vec<i64>) {
    (vec![0; 9], vec![1000; 9])
}

fn make_evaluator() -> Evaluator {
    let (min, max) = bounds();
    Evaluator::new(
        b"automode".to_vec(),
        b"scenario.argos".to_vec(),
        b"data.db".to_vec(),
        3,
        3,
        500_000,
        100,
        2500,
        stationary_trajectory(3),
        min,
        max,
    )
    .unwrap()
}

#[test]
fn transform_output_is_one_shorter() {
    for len in [2usize, 3, 5, 8] {
        let t: Vec<Vec<AgentPos>> = (0..len).map(|i| snapshot(i as i64)).collect();
        let m = to_metic(&t, 100, 2500);
        assert_eq!(m.len(), len - 1);
    }
}

#[test]
fn transform_is_idempotent() {
    let t: Vec<Vec<AgentPos>> = (0..4).map(|i| snapshot(i as i64)).collect();
    let m1 = to_metic(&t, 100, 2500);
    let m2 = to_metic(&t, 100, 2500);
    assert_eq!(m1, m2);
}

#[test]
fn stationary_trajectory_has_zero_shift_and_path() {
    // 3 snapshots, agents never move
    let t = stationary_trajectory(3);
    let m = to_metic(&t, 100, 2500);
    assert_eq!(m.len(), 2);
    // max_shift is feature 2, longest_path feature 4
    assert_eq!(m[0][2], 0);
    assert_eq!(m[0][4], 0);
    assert_eq!(m[1][2], 0);
    assert_eq!(m[1][4], 0);
}

#[test]
fn metric_dist_of_identical_trajectories_is_zero() {
    let t = stationary_trajectory(4);
    let d = metric_dist(&t, &t, 100, 2500);
    assert_eq!(d, vec![0i64; 9]);
}

#[test]
fn metric_dist_single_dimension_exact() {
    // two stationary trajectories differing only in position: the centre of
    // mass differs by a constant in each step, so the distance per centre
    // dimension is isqrt of the summed squares
    let a = stationary_trajectory(3);
    let b: Vec<Vec<AgentPos>> = (0..3)
        .map(|_| (0..15).map(|k: i64| pos(k * 100 + 2, k * 10)).collect())
        .collect();
    let ma = to_metic(&a, 100, 2500);
    let mb = to_metic(&b, 100, 2500);
    let d = metric_dist(&a, &b, 100, 2500);
    for dim in 0..9 {
        let sum: i128 = (0..2)
            .map(|t: usize| {
                let g = (ma[t][dim] - mb[t][dim]) as i128;
                g * g
            })
            .sum();
        let root = swarm_fitness::sqrt::isqrt(sum as u128) as i64;
        assert_eq!(d[dim], root);
    }
}

#[test]
fn evaluator_new_validates_in_order() {
    let (min, max) = bounds();
    let refdata = stationary_trajectory(3);
    let e = Evaluator::new(
        b"a".to_vec(), b"s".to_vec(), b"d".to_vec(),
        1, 3, 0, 100, 2500, refdata.clone(), min.clone(), max.clone(),
    );
    assert_eq!(e.unwrap_err(), ConfigError::BadExperimentLen);
    let e = Evaluator::new(
        b"a".to_vec(), b"s".to_vec(), b"d".to_vec(),
        3, 0, 0, 100, 2500, refdata.clone(), min.clone(), max.clone(),
    );
    assert_eq!(e.unwrap_err(), ConfigError::BadSeedCount);
    let e = Evaluator::new(
        b"a".to_vec(), b"s".to_vec(), b"d".to_vec(),
        3, 3, UNIT + 1, 100, 2500, refdata.clone(), min.clone(), max.clone(),
    );
    assert_eq!(e.unwrap_err(), ConfigError::BadProbability);
    let e = Evaluator::new(
        b"a".to_vec(), b"s".to_vec(), b"d".to_vec(),
        3, 3, 0, 100, 2500, stationary_trajectory(2), min.clone(), max.clone(),
    );
    assert_eq!(e.unwrap_err(), ConfigError::BadReferenceData);
    let e = Evaluator::new(
        b"a".to_vec(), b"s".to_vec(), b"d".to_vec(),
        3, 3, 0, 100, 2500, refdata.clone(), max.clone(), min.clone(),
    );
    assert_eq!(e.unwrap_err(), ConfigError::DegenerateBounds);
    let e = Evaluator::new(
        b"a".to_vec(), b"s".to_vec(), b"d".to_vec(),
        3, 3, 0, 100, 2500, refdata, min, max,
    );
    assert!(e.is_ok());
}

#[test]
fn eval_rejects_wrong_length() {
    let e = make_evaluator();
    let short = stationary_trajectory(2);
    assert_eq!(e.eval(&short).unwrap_err(), EvalError::WrongTrajectoryLength);
}

#[test]
fn eval_of_reference_itself_is_zero() {
    let e = make_evaluator();
    let d = e.eval(&stationary_trajectory(3)).unwrap();
    assert_eq!(d, vec![0i64; 9]);
}

#[test]
fn aggregation_of_identical_vectors_is_exact() {
    let e = make_evaluator();
    let d: Vec<i64> = (0..9).map(|k| (k as i64 + 1) * 7).collect();
    let results = vec![Some(d.clone()), Some(d.clone()), Some(d.clone())];
    assert_eq!(e.eval_all(&results), d);
}

#[test]
fn failed_seed_still_counts_in_divisor() {
    // 3 requested seeds, 1 failed: average = (2 * D) / 3 per dimension
    let e = make_evaluator();
    let d: Vec<i64> = (0..9).map(|k| (k as i64 + 1) * 9) .collect();
    let results = vec![Some(d.clone()), None, Some(d.clone())];
    let avg = e.eval_all(&results);
    for k in 0..9 {
        assert_eq!(avg[k], 2 * d[k] / 3);
    }
}

#[test]
fn normalization_hits_its_anchors() {
    let e = make_evaluator();
    // a metric equal to the minima normalizes to all zeros
    let (norm, fit) = e.eval_controller(&vec![0i64; 9]);
    assert_eq!(norm, vec![0i128; 9]);
    assert_eq!(fit, 0);
    // equal to the maxima: every dimension is exactly UNIT
    let (norm, fit) = e.eval_controller(&vec![1000i64; 9]);
    assert_eq!(norm, vec![UNIT as i128; 9]);
    assert_eq!(fit, UNIT as i128);
}

#[test]
fn normalization_is_not_clamped() {
    let e = make_evaluator();
    let (norm, _) = e.eval_controller(&vec![2000i64; 9]);
    assert_eq!(norm, vec![2 * UNIT as i128; 9]);
}

#[test]
fn seeds_are_in_range_and_counted() {
    let e = make_evaluator();
    let seeds = e.make_seeds();
    assert_eq!(seeds.len(), 3);
    for s in seeds {
        assert!(0 <= s && s < 0x7FFF_FFFF);
    }
}

#[test]
fn save_decision_compares_draw_to_probability() {
    let e = make_evaluator();
    assert!(e.should_save(499_999));
    assert!(!e.should_save(500_000));
    assert!(!e.should_save(999_999));
}

#[test]
fn get_command_builds_the_simulator_argv() {
    let e = make_evaluator();
    let cmd = vec![b"--nstates".to_vec(), b"1".to_vec()];
    let argv = e.get_command(123, &cmd);
    assert_eq!(argv.len(), 8);
    assert_eq!(argv[0], b"-n".to_vec());
    assert_eq!(argv[1], b"-c".to_vec());
    assert_eq!(argv[2], b"scenario.argos".to_vec());
    assert_eq!(argv[3], b"--seed".to_vec());
    assert_eq!(argv[4], b"123".to_vec());
    assert_eq!(argv[5], b"--fsm-config".to_vec());
    assert_eq!(argv[6], b"--nstates".to_vec());
    assert_eq!(argv[7], b"1".to_vec());
}
