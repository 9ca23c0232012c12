//! Multi-seed evaluation and fitness normalization: validated configuration,
//! seed drawing, per-seed trajectory scoring against the reference feature
//! series, averaging across seeds, and min-max normalization to one scalar.

use vstd::prelude::*;
use crate::{ints_of, metrics_of, snaps_of, snapshot_ok, trajectory_ok, wides_of};
use crate::{AgentPos, COORD_LIMIT, SWARM_SIZE};
use crate::transform::{
    dim_sq_sum, series_dist, series_ok, lemma_transform_ok, to_metic, transform_spec,
    DIM_DIST_MAX, MAX_TRAJ_LEN,
};
use crate::sqrt::sqrt_floor;

verus! {

/// Fixed-point one: probabilities and normalized values are in millionths.
pub const UNIT: u64 = 1_000_000;

/// Most seeds one evaluation may request; keeps the aggregation sums small.
pub const MAX_SEEDS: usize = 1_000_000;

/// Seeds are drawn uniformly below this bound.
pub const SEED_BOUND: u64 = 0x7FFF_FFFF;

/// A configuration problem found while building an `Evaluator`; the process
/// must not evaluate any controller after one of these.
#[derive(Clone, Copy, PartialEq, Eq, Structural, Debug)]
pub enum ConfigError {
    /// The experiment length is below two snapshots or too large.
    BadExperimentLen,
    /// The requested seed count is zero or too large.
    BadSeedCount,
    /// The save probability exceeds one.
    BadProbability,
    /// The reference trajectory has the wrong length, a snapshot of the
    /// wrong arity, or an out-of-range coordinate.
    BadReferenceData,
    /// The normalization bounds do not have nine values each with the
    /// minimum strictly below the maximum.
    DegenerateBounds,
}

/// A problem with one simulated trajectory.
#[derive(Clone, Copy, PartialEq, Eq, Structural, Debug)]
pub enum EvalError {
    /// The simulated trajectory does not have the configured length.
    WrongTrajectoryLength,
}

/// Relies on rand::thread_rng and rand::Rng::gen_range: returns a uniform
/// draw in `[0, bound)`; nothing more is assumed of the value.
#[verifier::external_body]
fn random_below(bound: u64) -> (r: u64)
    requires
        bound > 0,
    ensures
        r < bound,
{
    rand::Rng::gen_range(&mut rand::thread_rng(), 0..bound)
}

/// The evaluation context: immutable configuration, the reference
/// trajectory with its precomputed feature series, and the normalization
/// bounds.
#[derive(Clone, Debug)]
pub struct Evaluator {
    pub automode_exe: Vec<u8>,
    pub scenario: Vec<u8>,
    pub db_path: Vec<u8>,
    pub experiment_len: usize,
    pub num_of_experiments: usize,
    pub save_probability: u64,
    pub swarm_mode_dist: i64,
    pub density_radius: i64,
    pub real_pos: Vec<Vec<AgentPos>>,
    pub real_metic: Vec<Vec<i64>>,
    pub metics_norm_min: Vec<i64>,
    pub metics_norm_max: Vec<i64>,
}

/// The conditions `Evaluator::new` enforces on its plain inputs.
pub open spec fn config_ok(
    experiment_len: usize,
    num_of_experiments: usize,
    save_probability: u64,
    real_pos: Seq<Seq<AgentPos>>,
    norm_min: Seq<i64>,
    norm_max: Seq<i64>,
) -> bool {
    &&& 2 <= experiment_len <= MAX_TRAJ_LEN
    &&& 1 <= num_of_experiments <= MAX_SEEDS
    &&& save_probability <= UNIT
    &&& real_pos.len() == experiment_len
    &&& trajectory_ok(real_pos)
    &&& norm_min.len() == 9
    &&& norm_max.len() == 9
    &&& forall|d: int| 0 <= d < 9 ==> norm_min[d] < #[trigger] norm_max[d]
}

impl Evaluator {
    /// A well-formed evaluator: validated configuration and a cached
    /// feature series that is exactly the transform of the reference.
    pub open spec fn wf(self) -> bool {
        &&& config_ok(
            self.experiment_len,
            self.num_of_experiments,
            self.save_probability,
            snaps_of(self.real_pos@),
            self.metics_norm_min@,
            self.metics_norm_max@,
        )
        &&& metrics_of(self.real_metic@) == transform_spec(
            snaps_of(self.real_pos@),
            self.swarm_mode_dist as int,
            self.density_radius as int,
        )
        &&& self.real_metic@.len() == self.experiment_len - 1
    }

    /// Validates the configuration and precomputes the reference feature
    /// series. Each error names the first check that failed, in the fixed
    /// order of the `ensures`.
    pub fn new(
        automode_exe: Vec<u8>,
        scenario: Vec<u8>,
        db_path: Vec<u8>,
        experiment_len: usize,
        num_of_experiments: usize,
        save_probability: u64,
        swarm_mode_dist: i64,
        density_radius: i64,
        real_pos: Vec<Vec<AgentPos>>,
        metics_norm_min: Vec<i64>,
        metics_norm_max: Vec<i64>,
    ) -> (r: Result<Evaluator, ConfigError>)
        ensures
            r is Ok <==> config_ok(
                experiment_len,
                num_of_experiments,
                save_probability,
                snaps_of(real_pos@),
                metics_norm_min@,
                metics_norm_max@,
            ),
            r matches Ok(e) ==> {
                &&& e.wf()
                &&& e.automode_exe == automode_exe
                &&& e.scenario == scenario
                &&& e.db_path == db_path
                &&& e.experiment_len == experiment_len
                &&& e.num_of_experiments == num_of_experiments
                &&& e.save_probability == save_probability
                &&& e.swarm_mode_dist == swarm_mode_dist
                &&& e.density_radius == density_radius
                &&& e.real_pos == real_pos
                &&& e.metics_norm_min == metics_norm_min
                &&& e.metics_norm_max == metics_norm_max
            },
            r matches Err(c) ==> c == spec_config_error(
                experiment_len,
                num_of_experiments,
                save_probability,
                snaps_of(real_pos@),
                metics_norm_min@,
                metics_norm_max@,
            ),
    {
        if !(2 <= experiment_len && experiment_len <= MAX_TRAJ_LEN) {
            return Err(ConfigError::BadExperimentLen);
        }
        if !(1 <= num_of_experiments && num_of_experiments <= MAX_SEEDS) {
            return Err(ConfigError::BadSeedCount);
        }
        if save_probability > UNIT {
            return Err(ConfigError::BadProbability);
        }
        if real_pos.len() != experiment_len || !check_trajectory(&real_pos) {
            return Err(ConfigError::BadReferenceData);
        }
        if !check_bounds(&metics_norm_min, &metics_norm_max) {
            return Err(ConfigError::DegenerateBounds);
        }
        let real_metic = to_metic(&real_pos, swarm_mode_dist, density_radius);
        Ok(Evaluator {
            automode_exe,
            scenario,
            db_path,
            experiment_len,
            num_of_experiments,
            save_probability,
            swarm_mode_dist,
            density_radius,
            real_pos,
            real_metic,
            metics_norm_min,
            metics_norm_max,
        })
    }

    /// Draws one random seed per configured experiment.
    pub fn make_seeds(&self) -> (r: Vec<i64>)
        requires
            self.wf(),
        ensures
            r@.len() == self.num_of_experiments,
            forall|i: int| 0 <= i < r@.len() ==> 0 <= #[trigger] r@[i] < SEED_BOUND,
    {
        let mut seeds: Vec<i64> = Vec::new();
        let mut i: usize = 0;
        while i < self.num_of_experiments
            invariant
                0 <= i <= self.num_of_experiments,
                seeds@.len() == i,
                forall|k: int| 0 <= k < seeds@.len() ==> 0 <= #[trigger] seeds@[k] < SEED_BOUND,
            decreases self.num_of_experiments - i,
        {
            let s = random_below(SEED_BOUND);
            seeds.push(s as i64);
            i = i + 1;
        }
        seeds
    }

    /// Distance vector of one simulated trajectory against the reference:
    /// rejected when its length is not the configured experiment length,
    /// otherwise the per-dimension series distance of the two transforms.
    pub fn eval(&self, sim_pos: &Vec<Vec<AgentPos>>) -> (r: Result<Vec<i64>, EvalError>)
        requires
            self.wf(),
            trajectory_ok(snaps_of(sim_pos@)),
        ensures
            r is Ok <==> sim_pos@.len() == self.experiment_len,
            r matches Ok(v) ==> {
                &&& v@.len() == 9
                &&& forall|d: int|
                    0 <= d < 9 ==> #[trigger] v@[d] == sqrt_floor(
                        dim_sq_sum(
                            transform_spec(
                                snaps_of(self.real_pos@),
                                self.swarm_mode_dist as int,
                                self.density_radius as int,
                            ),
                            transform_spec(
                                snaps_of(sim_pos@),
                                self.swarm_mode_dist as int,
                                self.density_radius as int,
                            ),
                            d,
                            self.experiment_len - 1,
                        ),
                    )
                &&& forall|d: int| 0 <= d < 9 ==> 0 <= #[trigger] v@[d] <= DIM_DIST_MAX
            },
            r matches Err(c) ==> c == EvalError::WrongTrajectoryLength,
    {
        if sim_pos.len() != self.experiment_len {
            return Err(EvalError::WrongTrajectoryLength);
        }
        proof {
            lemma_transform_ok(
                snaps_of(self.real_pos@),
                self.swarm_mode_dist as int,
                self.density_radius as int,
            );
            lemma_transform_ok(
                snaps_of(sim_pos@),
                self.swarm_mode_dist as int,
                self.density_radius as int,
            );
        }
        let sim_metic = to_metic(sim_pos, self.swarm_mode_dist, self.density_radius);
        Ok(series_dist(&self.real_metic, &sim_metic))
    }
}

/// Which configuration error `Evaluator::new` reports, by check order.
pub open spec fn spec_config_error(
    experiment_len: usize,
    num_of_experiments: usize,
    save_probability: u64,
    real_pos: Seq<Seq<AgentPos>>,
    norm_min: Seq<i64>,
    norm_max: Seq<i64>,
) -> ConfigError {
    if !(2 <= experiment_len <= MAX_TRAJ_LEN) {
        ConfigError::BadExperimentLen
    } else if !(1 <= num_of_experiments <= MAX_SEEDS) {
        ConfigError::BadSeedCount
    } else if save_probability > UNIT {
        ConfigError::BadProbability
    } else if !(real_pos.len() == experiment_len && trajectory_ok(real_pos)) {
        ConfigError::BadReferenceData
    } else {
        ConfigError::DegenerateBounds
    }
}

/// Whether every snapshot of a trajectory is well-formed.
pub fn check_trajectory(t: &Vec<Vec<AgentPos>>) -> (b: bool)
    ensures
        b == trajectory_ok(snaps_of(t@)),
{
    let mut i: usize = 0;
    while i < t.len()
        invariant
            0 <= i <= t@.len(),
            forall|k: int| 0 <= k < i ==> snapshot_ok(#[trigger] snaps_of(t@)[k]),
        decreases t@.len() - i,
    {
        proof {
            assert(snaps_of(t@)[i as int] == t@[i as int]@);
        }
        if !check_snapshot(&t[i]) {
            return false;
        }
        i = i + 1;
    }
    true
}

/// Whether one snapshot has the right arity and bounded coordinates.
pub fn check_snapshot(s: &Vec<AgentPos>) -> (b: bool)
    ensures
        b == snapshot_ok(s@),
{
    if s.len() != SWARM_SIZE {
        return false;
    }
    let mut j: usize = 0;
    while j < s.len()
        invariant
            s@.len() == SWARM_SIZE,
            0 <= j <= s@.len(),
            forall|k: int| 0 <= k < j ==> crate::pos_ok(#[trigger] s@[k]),
        decreases s@.len() - j,
    {
        let p = s[j];
        if !(-COORD_LIMIT <= p.x && p.x <= COORD_LIMIT && -COORD_LIMIT <= p.y && p.y
            <= COORD_LIMIT) {
            return false;
        }
        j = j + 1;
    }
    true
}

/// Whether the normalization bounds have nine values each, minimum strictly
/// below maximum.
pub fn check_bounds(norm_min: &Vec<i64>, norm_max: &Vec<i64>) -> (b: bool)
    ensures
        b == (norm_min@.len() == 9 && norm_max@.len() == 9 && forall|d: int|
            0 <= d < 9 ==> norm_min@[d] < #[trigger] norm_max@[d]),
{
    if norm_min.len() != 9 || norm_max.len() != 9 {
        return false;
    }
    let mut d: usize = 0;
    while d < 9
        invariant
            norm_min@.len() == 9,
            norm_max@.len() == 9,
            0 <= d <= 9,
            forall|k: int| 0 <= k < d ==> norm_min@[k] < #[trigger] norm_max@[k],
        decreases 9 - d,
    {
        if norm_min[d] >= norm_max[d] {
            return false;
        }
        d = d + 1;
    }
    true
}


/// Sum over the first `n` per-seed results of dimension `d`, a failed seed
/// contributing zero.
pub open spec fn agg_sum(m: Seq<Option<Vec<i64>>>, d: int, n: int) -> int
    decreases n,
{
    if n <= 0 {
        0
    } else {
        agg_sum(m, d, n - 1) + match m[n - 1] {
            Some(v) => v@[d] as int,
            None => 0int,
        }
    }
}

/// Every successful per-seed result is a distance vector: nine dimensions,
/// each within the distance range.
pub open spec fn results_ok(m: Seq<Option<Vec<i64>>>) -> bool {
    forall|i: int|
        0 <= i < m.len() ==> (#[trigger] m[i] matches Some(v) ==> v@.len() == 9 && forall|d: int|
            0 <= d < 9 ==> 0 <= #[trigger] v@[d] <= DIM_DIST_MAX)
}

pub proof fn lemma_agg_sum_bound(m: Seq<Option<Vec<i64>>>, d: int, n: int)
    requires
        results_ok(m),
        0 <= d < 9,
        0 <= n <= m.len(),
    ensures
        0 <= agg_sum(m, d, n) <= n * DIM_DIST_MAX,
    decreases n,
{
    if n > 0 {
        lemma_agg_sum_bound(m, d, n - 1);
    }
}

pub proof fn lemma_div_in_range(a: int, b: int)
    requires
        b >= 1,
    ensures
        a >= 0 ==> 0 <= a / b <= a,
        a < 0 ==> a <= a / b <= 0,
{
    vstd::arithmetic::div_mod::lemma_fundamental_div_mod(a, b);
    vstd::arithmetic::div_mod::lemma_mod_bound(a, b);
    let q = a / b;
    let r = a % b;
    if a >= 0 {
        assert(q >= 0 && q <= a) by (nonlinear_arith)
            requires
                b * q + r == a,
                0 <= r < b,
                b >= 1,
                a >= 0,
        ;
    } else {
        assert(q <= 0 && q >= a) by (nonlinear_arith)
            requires
                b * q + r == a,
                0 <= r < b,
                b >= 1,
                a < 0,
        ;
    }
}

pub proof fn lemma_div_upper(a: int, b: int, m: int)
    requires
        b >= 1,
        0 <= a,
        a <= b * m,
    ensures
        a / b <= m,
{
    vstd::arithmetic::div_mod::lemma_fundamental_div_mod(a, b);
    vstd::arithmetic::div_mod::lemma_mod_bound(a, b);
    let q = a / b;
    let r = a % b;
    assert(q <= m) by (nonlinear_arith)
        requires
            b * q + r == a,
            0 <= r < b,
            b >= 1,
            a <= b * m,
    ;
}

impl Evaluator {
    /// Averages the per-seed distance vectors: each dimension is summed
    /// over the seeds that completed and divided by the number of seeds
    /// requested, so a failed seed still counts in the divisor and pulls
    /// the average toward zero.
    pub fn eval_all(&self, metrics_data: &Vec<Option<Vec<i64>>>) -> (r: Vec<i64>)
        requires
            1 <= metrics_data@.len() <= MAX_SEEDS,
            results_ok(metrics_data@),
        ensures
            r@.len() == 9,
            forall|d: int|
                0 <= d < 9 ==> #[trigger] r@[d] == agg_sum(
                    metrics_data@,
                    d,
                    metrics_data@.len() as int,
                ) / (metrics_data@.len() as int),
            forall|d: int| 0 <= d < 9 ==> 0 <= #[trigger] r@[d] <= DIM_DIST_MAX,
    {
        let ghost m = metrics_data@;
        let n = metrics_data.len();
        let mut r: Vec<i64> = Vec::new();
        let mut d: usize = 0;
        while d < 9
            invariant
                m == metrics_data@,
                results_ok(m),
                1 <= n <= MAX_SEEDS,
                n == m.len(),
                0 <= d <= 9,
                r@.len() == d,
                forall|e: int|
                    0 <= e < d ==> #[trigger] r@[e] == agg_sum(m, e, n as int) / (n as int),
                forall|e: int| 0 <= e < d ==> 0 <= #[trigger] r@[e] <= DIM_DIST_MAX,
            decreases 9 - d,
        {
            let mut acc: u128 = 0;
            let mut t: usize = 0;
            while t < n
                invariant
                    m == metrics_data@,
                    results_ok(m),
                    1 <= n <= MAX_SEEDS,
                    n == m.len(),
                    0 <= d < 9,
                    0 <= t <= n,
                    acc == agg_sum(m, d as int, t as int),
                    0 <= acc <= t * DIM_DIST_MAX,
                decreases n - t,
            {
                proof {
                    lemma_agg_sum_bound(m, d as int, t + 1 as int);
                }
                match &metrics_data[t] {
                    Some(v) => {
                        acc = acc + (v[d] as u128);
                    },
                    None => {},
                }
                t = t + 1;
            }
            proof {
                lemma_div_in_range(acc as int, n as int);
                lemma_div_upper(acc as int, n as int, DIM_DIST_MAX as int);
                assert(acc <= (n as int) * DIM_DIST_MAX) by (nonlinear_arith)
                    requires
                        acc <= (n as int) * DIM_DIST_MAX,
                ;
            }
            let q = acc / (n as u128);
            r.push(q as i64);
            d = d + 1;
        }
        r
    }

    /// Normalized metric and scalar fitness of one averaged distance
    /// vector: per dimension `(value - min) * UNIT / (max - min)`, then the
    /// mean of the nine normalized dimensions.
    pub fn eval_controller(&self, metics: &Vec<i64>) -> (r: (Vec<i128>, i128))
        requires
            self.wf(),
            metics@.len() == 9,
        ensures
            r.0@.len() == 9,
            wides_of(r.0@) == norm_spec(
                ints_of(metics@),
                ints_of(self.metics_norm_min@),
                ints_of(self.metics_norm_max@),
            ),
            r.1 == crate::sum_prefix(wides_of(r.0@), 9) / 9,
    {
        let metric_norm = norm(metics, &self.metics_norm_min, &self.metics_norm_max);
        let mut acc: i128 = 0;
        let mut d: usize = 0;
        while d < 9
            invariant
                metric_norm@.len() == 9,
                forall|e: int|
                    0 <= e < 9 ==> -40_000_000_000_000_000_000_000_000
                        <= #[trigger] metric_norm@[e] <= 40_000_000_000_000_000_000_000_000,
                0 <= d <= 9,
                acc == crate::sum_prefix(wides_of(metric_norm@), d as int),
                -40_000_000_000_000_000_000_000_000 * d <= acc <= 40_000_000_000_000_000_000_000_000
                    * d,
            decreases 9 - d,
        {
            acc = acc + metric_norm[d];
            d = d + 1;
        }
        proof {
            lemma_div_in_range(acc as int, 9);
        }
        let f = match acc.checked_div_euclid(9) {
            Some(v) => v,
            None => 0,
        };
        (metric_norm, f)
    }

    /// The simulator's argument list for one run: the fixed flags, the
    /// scenario, the decimal seed, and the controller tokens appended
    /// verbatim; the executable path itself is not part of it.
    pub fn get_command(&self, seed: i64, controller_cmd: &Vec<Vec<u8>>) -> (r: Vec<Vec<u8>>)
        requires
            seed >= 0,
        ensures
            r@.len() == 6 + controller_cmd@.len(),
            r@[0]@ == seq![45u8, 110u8],
            r@[1]@ == seq![45u8, 99u8],
            r@[2]@ == self.scenario@,
            r@[3]@ == seq![45u8, 45u8, 115u8, 101u8, 101u8, 100u8],
            crate::parse::all_digits(r@[4]@) && crate::parse::digits_val(r@[4]@) == seed,
            r@[5]@ == seq![
                45u8,
                45u8,
                102u8,
                115u8,
                109u8,
                45u8,
                99u8,
                111u8,
                110u8,
                102u8,
                105u8,
                103u8,
            ],
            forall|k: int|
                0 <= k < controller_cmd@.len() ==> r@[6 + k]@ == #[trigger] controller_cmd@[k]@,
    {
        let mut r: Vec<Vec<u8>> = Vec::new();
        let mut dash_n: Vec<u8> = Vec::new();
        dash_n.push(45);
        dash_n.push(110);
        proof {
            assert(dash_n@ =~= seq![45u8, 110u8]);
        }
        r.push(dash_n);
        let mut dash_c: Vec<u8> = Vec::new();
        dash_c.push(45);
        dash_c.push(99);
        proof {
            assert(dash_c@ =~= seq![45u8, 99u8]);
        }
        r.push(dash_c);
        let mut scen: Vec<u8> = Vec::new();
        scen.extend_from_slice(self.scenario.as_slice());
        proof {
            assert(scen@ =~= self.scenario@);
        }
        r.push(scen);
        let mut seed_flag: Vec<u8> = Vec::new();
        seed_flag.push(45);
        seed_flag.push(45);
        seed_flag.push(115);
        seed_flag.push(101);
        seed_flag.push(101);
        seed_flag.push(100);
        proof {
            assert(seed_flag@ =~= seq![45u8, 45u8, 115u8, 101u8, 101u8, 100u8]);
        }
        r.push(seed_flag);
        let seed_digits = crate::parse::render_i64(seed);
        r.push(seed_digits);
        let mut fsm_flag: Vec<u8> = Vec::new();
        fsm_flag.push(45);
        fsm_flag.push(45);
        fsm_flag.push(102);
        fsm_flag.push(115);
        fsm_flag.push(109);
        fsm_flag.push(45);
        fsm_flag.push(99);
        fsm_flag.push(111);
        fsm_flag.push(110);
        fsm_flag.push(102);
        fsm_flag.push(105);
        fsm_flag.push(103);
        proof {
            assert(fsm_flag@ =~= seq![
                45u8,
                45u8,
                102u8,
                115u8,
                109u8,
                45u8,
                99u8,
                111u8,
                110u8,
                102u8,
                105u8,
                103u8,
            ]);
        }
        r.push(fsm_flag);
        let mut k: usize = 0;
        while k < controller_cmd.len()
            invariant
                0 <= k <= controller_cmd@.len(),
                r@.len() == 6 + k,
                r@[0]@ == seq![45u8, 110u8],
                r@[1]@ == seq![45u8, 99u8],
                r@[2]@ == self.scenario@,
                r@[3]@ == seq![45u8, 45u8, 115u8, 101u8, 101u8, 100u8],
                crate::parse::all_digits(r@[4]@) && crate::parse::digits_val(r@[4]@) == seed,
                r@[5]@ == seq![
                    45u8,
                    45u8,
                    102u8,
                    115u8,
                    109u8,
                    45u8,
                    99u8,
                    111u8,
                    110u8,
                    102u8,
                    105u8,
                    103u8,
                ],
                forall|m: int|
                    0 <= m < k ==> r@[6 + m]@ == #[trigger] controller_cmd@[m]@,
                seed >= 0,
            decreases controller_cmd@.len() - k,
        {
            let mut tok: Vec<u8> = Vec::new();
            tok.extend_from_slice(controller_cmd[k].as_slice());
            proof {
                assert(tok@ =~= controller_cmd@[k as int]@);
            }
            r.push(tok);
            k = k + 1;
        }
        r
    }

    /// Whether this evaluation's result is persisted: the configured save
    /// probability, in millionths, is compared against a uniform draw.
    pub fn should_save(&self, draw: u64) -> (r: bool)
        ensures
            r == (draw < self.save_probability),
    {
        self.save_probability > draw
    }
}

/// Min-max normalization of a nine-dimensional vector, in millionths:
/// `(value - min) * UNIT / (max - min)`, flooring.
pub open spec fn norm_spec(m: Seq<int>, mn: Seq<int>, mx: Seq<int>) -> Seq<int> {
    Seq::new(9, |d: int| ((m[d] - mn[d]) * (UNIT as int)) / (mx[d] - mn[d]))
}

/// Rescales a distance vector against the stored bounds: a value equal to
/// the minimum maps to zero, one equal to the maximum maps to `UNIT`; the
/// result is not clamped and may leave `[0, UNIT]`.
pub fn norm(metrics: &Vec<i64>, norm_min: &Vec<i64>, norm_max: &Vec<i64>) -> (r: Vec<i128>)
    requires
        metrics@.len() == 9,
        norm_min@.len() == 9,
        norm_max@.len() == 9,
        forall|d: int| 0 <= d < 9 ==> norm_min@[d] < #[trigger] norm_max@[d],
    ensures
        r@.len() == 9,
        wides_of(r@) == norm_spec(ints_of(metrics@), ints_of(norm_min@), ints_of(norm_max@)),
        forall|d: int|
            0 <= d < 9 ==> -40_000_000_000_000_000_000_000_000 <= #[trigger] r@[d]
                <= 40_000_000_000_000_000_000_000_000,
{
    let mut r: Vec<i128> = Vec::new();
    let mut d: usize = 0;
    while d < 9
        invariant
            metrics@.len() == 9,
            norm_min@.len() == 9,
            norm_max@.len() == 9,
            forall|e: int| 0 <= e < 9 ==> norm_min@[e] < #[trigger] norm_max@[e],
            0 <= d <= 9,
            r@.len() == d,
            forall|e: int|
                0 <= e < d ==> #[trigger] r@[e] as int == ((metrics@[e] - norm_min@[e]) * (
                UNIT as int)) / (norm_max@[e] - norm_min@[e]),
            forall|e: int|
                0 <= e < d ==> -40_000_000_000_000_000_000_000_000 <= #[trigger] r@[e]
                    <= 40_000_000_000_000_000_000_000_000,
        decreases 9 - d,
    {
        let diff = (metrics[d] as i128) - (norm_min[d] as i128);
        proof {
            assert(-40_000_000_000_000_000_000_000_000 <= diff * 1_000_000
                <= 40_000_000_000_000_000_000_000_000) by (nonlinear_arith)
                requires
                    -40_000_000_000_000_000_000 <= diff <= 40_000_000_000_000_000_000,
            ;
        }
        let num = diff * (UNIT as i128);
        let den = (norm_max[d] as i128) - (norm_min[d] as i128);
        proof {
            lemma_div_in_range(num as int, den as int);
        }
        let q = match num.checked_div_euclid(den) {
            Some(v) => v,
            None => 0,
        };
        r.push(q);
        d = d + 1;
    }
    proof {
        assert(wides_of(r@) =~= norm_spec(ints_of(metrics@), ints_of(norm_min@), ints_of(
            norm_max@,
        )));
    }
    r
}

} // verus!\n