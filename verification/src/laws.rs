//! Laws of the library: determinism of the transform, invariance of the
//! features under a permutation of the agent slots, and the exactness of
//! normalization and aggregation at their anchor points.

use vstd::prelude::*;
use vstd::seq_lib::{commutative_foldr, group_to_multiset_ensures, lemma_fold_right_permutation};
use crate::sum_prefix;
use crate::AgentPos;
use crate::geometry::{
    best_x, best_y, beta_spec, cnt_upto, cnt_x_upto, cnt_y_upto, dens_cnt_upto, dens_sum_upto,
    far_of_upto, far_sum_upto, feature_seq, max_dist_upto, max_radius_upto, mode_spec, pair_dist,
    row_cnt, row_total, spec_dist, spec_dist_com, spec_esq, sum_x, sum_y, total_upto,
};
use crate::evaluator::{agg_sum, norm_spec, UNIT};
use crate::transform::transform_spec;

verus! {

/// `p` and `q` are mutually inverse maps of the slots `0 .. n`: together
/// they say that `p` is a permutation.
pub open spec fn perm_pair_n(p: Seq<int>, q: Seq<int>, n: int) -> bool {
    &&& p.len() == n
    &&& q.len() == n
    &&& forall|i: int| 0 <= i < n ==> 0 <= #[trigger] p[i] < n
    &&& forall|i: int| 0 <= i < n ==> 0 <= #[trigger] q[i] < n
    &&& forall|i: int| 0 <= i < n ==> q[#[trigger] p[i]] == i
    &&& forall|k: int| 0 <= k < n ==> p[#[trigger] q[k]] == k
}

/// Reading a sequence through a permutation of its slots keeps its
/// multiset of values.
pub proof fn lemma_reindex_multiset<A>(v: Seq<A>, p: Seq<int>, q: Seq<int>)
    requires
        perm_pair_n(p, q, v.len() as int),
    ensures
        Seq::new(v.len(), |i: int| v[p[i]]).to_multiset() == v.to_multiset(),
    decreases v.len(),
{
    broadcast use group_to_multiset_ensures;

    let n = v.len() as int;
    let w = Seq::new(v.len(), |i: int| v[p[i]]);
    if n == 0 {
        assert(w =~= v);
    } else {
        let k = q[n - 1];
        assert(p[k] == n - 1);
        let vd = v.drop_last();
        let pd = Seq::new((n - 1) as nat, |i: int| if i < k { p[i] } else { p[i + 1] });
        let qd = Seq::new((n - 1) as nat, |j: int| if q[j] < k { q[j] } else { q[j] - 1 });
        assert forall|i: int| 0 <= i < n - 1 implies 0 <= #[trigger] pd[i] < n - 1 by {
            if i < k {
                assert(q[p[i]] == i);
            } else {
                assert(q[p[i + 1]] == i + 1);
            }
        }
        assert forall|i: int| 0 <= i < n - 1 implies qd[#[trigger] pd[i]] == i by {
            if i < k {
                assert(q[p[i]] == i);
            } else {
                assert(q[p[i + 1]] == i + 1);
            }
        }
        assert forall|j: int| 0 <= j < n - 1 implies pd[#[trigger] qd[j]] == j by {
            assert(p[q[j]] == j);
            if q[j] < k {
            } else {
                assert(q[j] != k);
            }
        }
        assert(perm_pair_n(pd, qd, n - 1));
        lemma_reindex_multiset(vd, pd, qd);
        let wd = Seq::new((n - 1) as nat, |i: int| vd[pd[i]]);
        assert forall|i: int| 0 <= i < n - 1 implies w.remove(k)[i] == wd[i] by {
            if i < k {
                assert(q[p[i]] == i);
            } else {
                assert(q[p[i + 1]] == i + 1);
            }
        }
        assert(w.remove(k) =~= wd);
        assert(w.remove(k).to_multiset() =~= w.to_multiset().remove(w[k]));
        assert(w[k] == v[n - 1]);
        assert(v =~= vd.push(v.last()));
        assert(v.to_multiset() =~= vd.to_multiset().insert(v.last()));
        assert(w.to_multiset().count(w[k]) > 0);
        assert(w.to_multiset() =~= w.to_multiset().remove(w[k]).insert(v[n - 1]));
        assert(w.to_multiset() =~= v.to_multiset());
    }
}

/// The folding operator behind the sums.
pub open spec fn add_fold() -> spec_fn(int, int) -> int {
    |a: int, acc: int| a + acc
}

/// A prefix sum reads only the slots below `n`.
pub proof fn lemma_sum_prefix_congruence(a: Seq<int>, b: Seq<int>, n: int)
    requires
        forall|i: int| 0 <= i < n ==> a[i] == b[i],
    ensures
        sum_prefix(a, n) == sum_prefix(b, n),
    decreases n,
{
    if n > 0 {
        lemma_sum_prefix_congruence(a, b, n - 1);
    }
}

/// Folding addition from the right sums the sequence.
pub proof fn lemma_sum_prefix_fold(v: Seq<int>, b: int)
    ensures
        v.fold_right(add_fold(), b) == sum_prefix(v, v.len() as int) + b,
    decreases v.len(),
{
    if v.len() > 0 {
        lemma_sum_prefix_fold(v.drop_last(), add_fold()(v.last(), b));
        lemma_sum_prefix_congruence(v.drop_last(), v, v.len() - 1);
    }
}

/// Two sequences with the same multiset of values have the same sum.
pub proof fn lemma_sum_multiset(v1: Seq<int>, v2: Seq<int>)
    requires
        v1.to_multiset() == v2.to_multiset(),
    ensures
        sum_prefix(v1, v1.len() as int) == sum_prefix(v2, v2.len() as int),
{
    let f = add_fold();
    assert(commutative_foldr(f));
    lemma_fold_right_permutation(v1, v2, f, 0);
    lemma_sum_prefix_fold(v1, 0);
    lemma_sum_prefix_fold(v2, 0);
}

/// Summing a sequence through a permutation of its slots gives the sum of
/// the sequence.
pub proof fn lemma_sum_reindex(v: Seq<int>, p: Seq<int>, q: Seq<int>)
    requires
        perm_pair_n(p, q, v.len() as int),
    ensures
        sum_prefix(Seq::new(v.len(), |i: int| v[p[i]]), v.len() as int) == sum_prefix(
            v,
            v.len() as int,
        ),
{
    lemma_reindex_multiset(v, p, q);
    lemma_sum_multiset(Seq::new(v.len(), |i: int| v[p[i]]), v);
}


/// `t` reads the agent slots of `s` through the permutation `p`.
pub open spec fn permuted(t: Seq<AgentPos>, s: Seq<AgentPos>, p: Seq<int>) -> bool {
    &&& t.len() == 15
    &&& s.len() == 15
    &&& forall|i: int| 0 <= i < 15 ==> t[i] == s[#[trigger] p[i]]
}

/// The x coordinates of a snapshot, as a sequence of integers.
pub open spec fn xs_of(s: Seq<AgentPos>) -> Seq<int> {
    Seq::new(s.len(), |i: int| s[i].x as int)
}

/// The y coordinates of a snapshot, as a sequence of integers.
pub open spec fn ys_of(s: Seq<AgentPos>) -> Seq<int> {
    Seq::new(s.len(), |i: int| s[i].y as int)
}

pub proof fn lemma_sums_as_prefix(s: Seq<AgentPos>)
    ensures
        sum_x(s) == sum_prefix(xs_of(s), s.len() as int),
        sum_y(s) == sum_prefix(ys_of(s), s.len() as int),
    decreases s.len(),
{
    if s.len() > 0 {
        lemma_sums_as_prefix(s.drop_last());
        lemma_sum_prefix_congruence(xs_of(s.drop_last()), xs_of(s), s.len() - 1);
        lemma_sum_prefix_congruence(ys_of(s.drop_last()), ys_of(s), s.len() - 1);
    }
}

/// The centre of mass is invariant under a permutation of the agent slots.
pub proof fn lemma_sums_permutation(s: Seq<AgentPos>, t: Seq<AgentPos>, p: Seq<int>, q: Seq<int>)
    requires
        perm_pair_n(p, q, 15),
        permuted(t, s, p),
    ensures
        sum_x(t) == sum_x(s),
        sum_y(t) == sum_y(s),
{
    lemma_sums_as_prefix(s);
    lemma_sums_as_prefix(t);
    assert(xs_of(t) =~= Seq::new(15, |i: int| xs_of(s)[p[i]]));
    assert(ys_of(t) =~= Seq::new(15, |i: int| ys_of(s)[p[i]]));
    lemma_sum_reindex(xs_of(s), p, q);
    lemma_sum_reindex(ys_of(s), p, q);
}

pub proof fn lemma_max_dist_char(s1: Seq<AgentPos>, s2: Seq<AgentPos>, n: int)
    ensures
        max_dist_upto(s1, s2, n) >= 0,
        max_dist_upto(s1, s2, n) == 0 || exists|j: int|
            0 <= j < n && spec_dist(s1[j], s2[j]) == max_dist_upto(s1, s2, n),
        forall|j: int| 0 <= j < n ==> spec_dist(s1[j], #[trigger] s2[j]) <= max_dist_upto(s1, s2, n),
    decreases n,
{
    if n > 0 {
        lemma_max_dist_char(s1, s2, n - 1);
    }
}

/// The slot-paired distance maximum is invariant when the same permutation
/// is applied to both snapshots.
pub proof fn lemma_max_dist_permutation(
    s1: Seq<AgentPos>,
    s2: Seq<AgentPos>,
    t1: Seq<AgentPos>,
    t2: Seq<AgentPos>,
    p: Seq<int>,
    q: Seq<int>,
)
    requires
        perm_pair_n(p, q, 15),
        permuted(t1, s1, p),
        permuted(t2, s2, p),
    ensures
        max_dist_upto(t1, t2, 15) == max_dist_upto(s1, s2, 15),
{
    lemma_max_dist_char(s1, s2, 15);
    lemma_max_dist_char(t1, t2, 15);
    let ms = max_dist_upto(s1, s2, 15);
    let mt = max_dist_upto(t1, t2, 15);
    if mt > ms {
        let j = choose|j: int| 0 <= j < 15 && spec_dist(t1[j], t2[j]) == mt;
        assert(spec_dist(s1[p[j]], s2[p[j]]) == mt);
    }
    if ms > mt {
        let k = choose|k: int| 0 <= k < 15 && spec_dist(s1[k], s2[k]) == ms;
        assert(p[q[k]] == k);
        assert(spec_dist(t1[q[k]], t2[q[k]]) == ms);
    }
}

pub proof fn lemma_max_radius_char(s: Seq<AgentPos>, sx: int, sy: int, n: int)
    ensures
        max_radius_upto(s, sx, sy, n) >= 0,
        max_radius_upto(s, sx, sy, n) == 0 || exists|j: int|
            0 <= j < n && spec_dist_com(sx, sy, s[j]) == max_radius_upto(s, sx, sy, n),
        forall|j: int|
            0 <= j < n ==> spec_dist_com(sx, sy, #[trigger] s[j]) <= max_radius_upto(s, sx, sy, n),
    decreases n,
{
    if n > 0 {
        lemma_max_radius_char(s, sx, sy, n - 1);
    }
}

/// The largest centre-of-mass distance is invariant under a permutation of
/// the agent slots.
pub proof fn lemma_max_radius_permutation(
    s: Seq<AgentPos>,
    t: Seq<AgentPos>,
    p: Seq<int>,
    q: Seq<int>,
    sx: int,
    sy: int,
)
    requires
        perm_pair_n(p, q, 15),
        permuted(t, s, p),
    ensures
        max_radius_upto(t, sx, sy, 15) == max_radius_upto(s, sx, sy, 15),
{
    lemma_max_radius_char(s, sx, sy, 15);
    lemma_max_radius_char(t, sx, sy, 15);
    let ms = max_radius_upto(s, sx, sy, 15);
    let mt = max_radius_upto(t, sx, sy, 15);
    if mt > ms {
        let j = choose|j: int| 0 <= j < 15 && spec_dist_com(sx, sy, t[j]) == mt;
        assert(spec_dist_com(sx, sy, s[p[j]]) == mt);
    }
    if ms > mt {
        let k = choose|k: int| 0 <= k < 15 && spec_dist_com(sx, sy, s[k]) == ms;
        assert(p[q[k]] == k);
        assert(spec_dist_com(sx, sy, t[q[k]]) == ms);
    }
}

/// Indicator sequence of the neighbours of the position `a` within `r`.
pub open spec fn dens_ind(s: Seq<AgentPos>, a: AgentPos, r: int) -> Seq<int> {
    Seq::new(
        s.len(),
        |j: int|
            if s[j] != a && spec_dist(a, s[j]) < r {
                1int
            } else {
                0int
            },
    )
}

pub proof fn lemma_dens_cnt_as_sum(s: Seq<AgentPos>, r: int, i: int, n: int)
    requires
        0 <= i < s.len(),
        0 <= n <= s.len(),
    ensures
        dens_cnt_upto(s, r, i, n) == sum_prefix(dens_ind(s, s[i], r), n),
    decreases n,
{
    if n > 0 {
        lemma_dens_cnt_as_sum(s, r, i, n - 1);
    }
}

pub proof fn lemma_dens_cnt_permutation(
    s: Seq<AgentPos>,
    t: Seq<AgentPos>,
    p: Seq<int>,
    q: Seq<int>,
    r: int,
    i: int,
)
    requires
        perm_pair_n(p, q, 15),
        permuted(t, s, p),
        0 <= i < 15,
    ensures
        dens_cnt_upto(t, r, i, 15) == dens_cnt_upto(s, r, p[i], 15),
{
    let a = t[i];
    assert(a == s[p[i]]);
    lemma_dens_cnt_as_sum(t, r, i, 15);
    lemma_dens_cnt_as_sum(s, r, p[i], 15);
    assert(dens_ind(t, a, r) =~= Seq::new(15, |j: int| dens_ind(s, a, r)[p[j]]));
    lemma_sum_reindex(dens_ind(s, a, r), p, q);
}

/// Per-agent neighbour counts of a snapshot.
pub open spec fn dens_cnt_seq(s: Seq<AgentPos>, r: int) -> Seq<int> {
    Seq::new(s.len(), |i: int| dens_cnt_upto(s, r, i, 15))
}

pub proof fn lemma_dens_sum_as_sum(s: Seq<AgentPos>, r: int, n: int)
    requires
        0 <= n <= s.len(),
        s.len() == 15,
    ensures
        dens_sum_upto(s, r, n) == sum_prefix(dens_cnt_seq(s, r), n),
    decreases n,
{
    if n > 0 {
        lemma_dens_sum_as_sum(s, r, n - 1);
    }
}

/// The local density total is invariant under a permutation of the agent
/// slots.
pub proof fn lemma_dens_sum_permutation(
    s: Seq<AgentPos>,
    t: Seq<AgentPos>,
    p: Seq<int>,
    q: Seq<int>,
    r: int,
)
    requires
        perm_pair_n(p, q, 15),
        permuted(t, s, p),
    ensures
        dens_sum_upto(t, r, 15) == dens_sum_upto(s, r, 15),
{
    lemma_dens_sum_as_sum(s, r, 15);
    lemma_dens_sum_as_sum(t, r, 15);
    assert forall|i: int| 0 <= i < 15 implies dens_cnt_seq(t, r)[i] == dens_cnt_seq(s, r)[p[i]] by {
        lemma_dens_cnt_permutation(s, t, p, q, r, i);
    }
    assert(dens_cnt_seq(t, r) =~= Seq::new(15, |i: int| dens_cnt_seq(s, r)[p[i]]));
    lemma_sum_reindex(dens_cnt_seq(s, r), p, q);
}

pub proof fn lemma_far_of_char(s: Seq<AgentPos>, i: int, n: int)
    ensures
        far_of_upto(s, i, n) >= 0,
        far_of_upto(s, i, n) == 0 || exists|j: int|
            0 <= j < n && s[j] != s[i] && spec_dist(s[i], s[j]) == far_of_upto(s, i, n),
        forall|j: int|
            0 <= j < n && #[trigger] s[j] != s[i] ==> spec_dist(s[i], s[j]) <= far_of_upto(s, i, n),
    decreases n,
{
    if n > 0 {
        lemma_far_of_char(s, i, n - 1);
    }
}

pub proof fn lemma_far_of_permutation(
    s: Seq<AgentPos>,
    t: Seq<AgentPos>,
    p: Seq<int>,
    q: Seq<int>,
    i: int,
)
    requires
        perm_pair_n(p, q, 15),
        permuted(t, s, p),
        0 <= i < 15,
    ensures
        far_of_upto(t, i, 15) == far_of_upto(s, p[i], 15),
{
    lemma_far_of_char(t, i, 15);
    lemma_far_of_char(s, p[i], 15);
    let mt = far_of_upto(t, i, 15);
    let ms = far_of_upto(s, p[i], 15);
    if mt > ms {
        let j = choose|j: int|
            0 <= j < 15 && t[j] != t[i] && spec_dist(t[i], t[j]) == mt;
        assert(s[p[j]] != s[p[i]] && spec_dist(s[p[i]], s[p[j]]) == mt);
    }
    if ms > mt {
        let k = choose|k: int|
            0 <= k < 15 && s[k] != s[p[i]] && spec_dist(s[p[i]], s[k]) == ms;
        assert(p[q[k]] == k);
        assert(t[q[k]] != t[i] && spec_dist(t[i], t[q[k]]) == ms);
    }
}

/// Per-agent farthest-neighbour distances of a snapshot.
pub open spec fn far_seq(s: Seq<AgentPos>) -> Seq<int> {
    Seq::new(s.len(), |i: int| far_of_upto(s, i, 15))
}

pub proof fn lemma_far_sum_as_sum(s: Seq<AgentPos>, n: int)
    requires
        0 <= n <= s.len(),
        s.len() == 15,
    ensures
        far_sum_upto(s, n) == sum_prefix(far_seq(s), n),
    decreases n,
{
    if n > 0 {
        lemma_far_sum_as_sum(s, n - 1);
    }
}

/// The farthest-neighbour total is invariant under a permutation of the
/// agent slots.
pub proof fn lemma_far_sum_permutation(
    s: Seq<AgentPos>,
    t: Seq<AgentPos>,
    p: Seq<int>,
    q: Seq<int>,
)
    requires
        perm_pair_n(p, q, 15),
        permuted(t, s, p),
    ensures
        far_sum_upto(t, 15) == far_sum_upto(s, 15),
{
    lemma_far_sum_as_sum(s, 15);
    lemma_far_sum_as_sum(t, 15);
    assert forall|i: int| 0 <= i < 15 implies far_seq(t)[i] == far_seq(s)[p[i]] by {
        lemma_far_of_permutation(s, t, p, q, i);
    }
    assert(far_seq(t) =~= Seq::new(15, |i: int| far_seq(s)[p[i]]));
    lemma_sum_reindex(far_seq(s), p, q);
}


/// Consistently permuting the agent slots of the current, origin and
/// previous snapshots leaves the centre of mass and every order-independent
/// feature unchanged: the shift and path maxima, the radius, the local
/// density, the farthest-neighbour statistic and the beta index. The mode
/// index needs a unique winner per axis: see
/// `lemma_mode_permutation_invariant`.
pub proof fn lemma_feature_permutation_invariant(
    s_cur: Seq<AgentPos>,
    s_org: Seq<AgentPos>,
    s_prev: Seq<AgentPos>,
    t_cur: Seq<AgentPos>,
    t_org: Seq<AgentPos>,
    t_prev: Seq<AgentPos>,
    p: Seq<int>,
    q: Seq<int>,
    md: int,
    dr: int,
)
    requires
        perm_pair_n(p, q, 15),
        permuted(t_cur, s_cur, p),
        permuted(t_org, s_org, p),
        permuted(t_prev, s_prev, p),
    ensures
        feature_seq(t_cur, t_org, t_prev, md, dr)[0] == feature_seq(s_cur, s_org, s_prev, md, dr)[0],
        feature_seq(t_cur, t_org, t_prev, md, dr)[1] == feature_seq(s_cur, s_org, s_prev, md, dr)[1],
        feature_seq(t_cur, t_org, t_prev, md, dr)[2] == feature_seq(s_cur, s_org, s_prev, md, dr)[2],
        feature_seq(t_cur, t_org, t_prev, md, dr)[4] == feature_seq(s_cur, s_org, s_prev, md, dr)[4],
        feature_seq(t_cur, t_org, t_prev, md, dr)[5] == feature_seq(s_cur, s_org, s_prev, md, dr)[5],
        feature_seq(t_cur, t_org, t_prev, md, dr)[6] == feature_seq(s_cur, s_org, s_prev, md, dr)[6],
        feature_seq(t_cur, t_org, t_prev, md, dr)[7] == feature_seq(s_cur, s_org, s_prev, md, dr)[7],
        feature_seq(t_cur, t_org, t_prev, md, dr)[8] == feature_seq(s_cur, s_org, s_prev, md, dr)[8],
{
    lemma_beta_permutation_invariant(s_cur, t_cur, p, q);
    lemma_sums_permutation(s_cur, t_cur, p, q);
    lemma_max_dist_permutation(s_cur, s_prev, t_cur, t_prev, p, q);
    lemma_max_dist_permutation(s_cur, s_org, t_cur, t_org, p, q);
    lemma_max_radius_permutation(s_cur, t_cur, p, q, sum_x(s_cur), sum_y(s_cur));
    lemma_dens_sum_permutation(s_cur, t_cur, p, q, dr);
    lemma_far_sum_permutation(s_cur, t_cur, p, q);
}

/// The trajectory transform has no hidden state: the feature series is a
/// function of the trajectory and the two thresholds alone, so running the
/// same trajectory through it twice yields the same series.
pub proof fn lemma_transform_idempotent(
    t: Seq<Seq<AgentPos>>,
    md: int,
    dr: int,
    m1: Seq<Seq<int>>,
    m2: Seq<Seq<int>>,
)
    requires
        m1 == transform_spec(t, md, dr),
        m2 == transform_spec(t, md, dr),
    ensures
        m1 == m2,
{
}

pub proof fn lemma_agg_sum_identical(m: Seq<Option<Vec<i64>>>, v: Vec<i64>, d: int, n: int)
    requires
        0 <= n <= m.len(),
        forall|i: int| 0 <= i < m.len() ==> m[i] == Some(v),
        v@.len() == 9,
        0 <= d < 9,
    ensures
        agg_sum(m, d, n) == n * (v@[d] as int),
    decreases n,
{
    if n > 0 {
        lemma_agg_sum_identical(m, v, d, n - 1);
        assert((n - 1) * (v@[d] as int) + (v@[d] as int) == n * (v@[d] as int)) by (nonlinear_arith);
    }
}

/// Averaging identical per-seed results gives that result back exactly:
/// when every requested seed produced the same distance vector, each
/// dimension of the average equals that vector's value.
pub proof fn lemma_identical_results_average(m: Seq<Option<Vec<i64>>>, v: Vec<i64>, d: int)
    requires
        m.len() >= 1,
        forall|i: int| 0 <= i < m.len() ==> m[i] == Some(v),
        v@.len() == 9,
        0 <= d < 9,
    ensures
        agg_sum(m, d, m.len() as int) / (m.len() as int) == v@[d],
{
    let n = m.len() as int;
    lemma_agg_sum_identical(m, v, d, n);
    vstd::arithmetic::div_mod::lemma_div_multiples_vanish(v@[d] as int, n);
}

/// Normalization anchors: a distance vector equal to the stored minima
/// normalizes to zero in every dimension, one equal to the stored maxima to
/// exactly `UNIT` (fixed-point one).
pub proof fn lemma_norm_at_bounds(mn: Seq<int>, mx: Seq<int>, d: int)
    requires
        mn.len() == 9,
        mx.len() == 9,
        forall|e: int| 0 <= e < 9 ==> mn[e] < #[trigger] mx[e],
        0 <= d < 9,
    ensures
        norm_spec(mn, mn, mx)[d] == 0,
        norm_spec(mx, mn, mx)[d] == UNIT,
{
    let diff = mx[d] - mn[d];
    vstd::arithmetic::div_mod::lemma_div_of0(diff);
    vstd::arithmetic::div_mod::lemma_div_multiples_vanish(UNIT as int, diff);
    assert(diff * (UNIT as int) == (mx[d] - mn[d]) * (UNIT as int));
}


/// Indicator sequence of the agents whose x coordinate lies strictly
/// within `md` of the position `a`, excluding agents at `a` itself.
pub open spec fn xcnt_ind(s: Seq<AgentPos>, a: AgentPos, md: int) -> Seq<int> {
    Seq::new(
        s.len(),
        |j: int|
            if s[j] != a && crate::geometry::abs1(s[j].x - a.x) < md {
                1int
            } else {
                0int
            },
    )
}

pub proof fn lemma_cnt_x_as_sum(s: Seq<AgentPos>, md: int, i: int, n: int)
    requires
        0 <= i < s.len(),
        0 <= n <= s.len(),
    ensures
        cnt_x_upto(s, md, i, n) == sum_prefix(xcnt_ind(s, s[i], md), n),
    decreases n,
{
    if n > 0 {
        lemma_cnt_x_as_sum(s, md, i, n - 1);
    }
}

/// The per-agent x-frequency moves with the agent under a permutation.
pub proof fn lemma_cnt_x_permutation(
    s: Seq<AgentPos>,
    t: Seq<AgentPos>,
    p: Seq<int>,
    q: Seq<int>,
    md: int,
    i: int,
)
    requires
        perm_pair_n(p, q, 15),
        permuted(t, s, p),
        0 <= i < 15,
    ensures
        cnt_x_upto(t, md, i, 15) == cnt_x_upto(s, md, p[i], 15),
{
    let a = t[i];
    assert(a == s[p[i]]);
    lemma_cnt_x_as_sum(t, md, i, 15);
    lemma_cnt_x_as_sum(s, md, p[i], 15);
    assert(xcnt_ind(t, a, md) =~= Seq::new(15, |j: int| xcnt_ind(s, a, md)[p[j]]));
    lemma_sum_reindex(xcnt_ind(s, a, md), p, q);
}

/// What the axis scan returns: the count is the largest x-frequency among
/// the first `n` agents, held at the returned slot.
pub proof fn lemma_best_x_char(s: Seq<AgentPos>, md: int, n: int)
    requires
        1 <= n,
    ensures
        0 <= best_x(s, md, n).0 < n,
        best_x(s, md, n).1 == cnt_x_upto(s, md, best_x(s, md, n).0, 15),
        forall|i: int| 0 <= i < n ==> #[trigger] cnt_x_upto(s, md, i, 15) <= best_x(s, md, n).1,
    decreases n,
{
    crate::geometry::lemma_cnt_xy_bound(s, md, 0, 15);
    if n == 1 {
        assert(best_x(s, md, 0) == (0int, 0int));
    } else {
        lemma_best_x_char(s, md, n - 1);
    }
}

/// The winning x coordinate is unchanged by a permutation of the agent
/// slots when exactly one agent attains the largest x-frequency.
pub proof fn lemma_best_x_permutation(
    s: Seq<AgentPos>,
    t: Seq<AgentPos>,
    p: Seq<int>,
    q: Seq<int>,
    md: int,
)
    requires
        perm_pair_n(p, q, 15),
        permuted(t, s, p),
        forall|i: int|
            0 <= i < 15 && i != best_x(s, md, 15).0 ==> #[trigger] cnt_x_upto(s, md, i, 15)
                < best_x(s, md, 15).1,
    ensures
        t[best_x(t, md, 15).0].x == s[best_x(s, md, 15).0].x,
{
    lemma_best_x_char(s, md, 15);
    lemma_best_x_char(t, md, 15);
    let (bi, bc) = best_x(s, md, 15);
    let (ti, tc) = best_x(t, md, 15);
    assert forall|i: int| 0 <= i < 15 implies #[trigger] cnt_x_upto(t, md, i, 15) == cnt_x_upto(
        s,
        md,
        p[i],
        15,
    ) by {
        lemma_cnt_x_permutation(s, t, p, q, md, i);
    }
    // the maximal count of s is attained in t at the slot the permutation
    // sends to the winner, so the maxima agree
    assert(p[q[bi]] == bi);
    assert(cnt_x_upto(t, md, q[bi], 15) == bc);
    assert(bc <= tc);
    // the winner of t holds a count no smaller than the unique maximum of
    // s, so it must sit at the winning slot of s
    assert(cnt_x_upto(s, md, p[ti], 15) == tc);
    if p[ti] != bi {
        assert(cnt_x_upto(s, md, p[ti], 15) < bc);
    }
    assert(p[ti] == bi);
    assert(t[ti].x == s[p[ti]].x);
}


/// Indicator sequence of the agents whose y coordinate lies strictly
/// within `md` of the position `a`, excluding agents at `a` itself.
pub open spec fn ycnt_ind(s: Seq<AgentPos>, a: AgentPos, md: int) -> Seq<int> {
    Seq::new(
        s.len(),
        |j: int|
            if s[j] != a && crate::geometry::abs1(s[j].y - a.y) < md {
                1int
            } else {
                0int
            },
    )
}

pub proof fn lemma_cnt_y_as_sum(s: Seq<AgentPos>, md: int, i: int, n: int)
    requires
        0 <= i < s.len(),
        0 <= n <= s.len(),
    ensures
        cnt_y_upto(s, md, i, n) == sum_prefix(ycnt_ind(s, s[i], md), n),
    decreases n,
{
    if n > 0 {
        lemma_cnt_y_as_sum(s, md, i, n - 1);
    }
}

/// The per-agent y-frequency moves with the agent under a permutation.
pub proof fn lemma_cnt_y_permutation(
    s: Seq<AgentPos>,
    t: Seq<AgentPos>,
    p: Seq<int>,
    q: Seq<int>,
    md: int,
    i: int,
)
    requires
        perm_pair_n(p, q, 15),
        permuted(t, s, p),
        0 <= i < 15,
    ensures
        cnt_y_upto(t, md, i, 15) == cnt_y_upto(s, md, p[i], 15),
{
    let a = t[i];
    assert(a == s[p[i]]);
    lemma_cnt_y_as_sum(t, md, i, 15);
    lemma_cnt_y_as_sum(s, md, p[i], 15);
    assert(ycnt_ind(t, a, md) =~= Seq::new(15, |j: int| ycnt_ind(s, a, md)[p[j]]));
    lemma_sum_reindex(ycnt_ind(s, a, md), p, q);
}

/// As `lemma_best_x_char`, on the y axis.
pub proof fn lemma_best_y_char(s: Seq<AgentPos>, md: int, n: int)
    requires
        1 <= n,
    ensures
        0 <= best_y(s, md, n).0 < n,
        best_y(s, md, n).1 == cnt_y_upto(s, md, best_y(s, md, n).0, 15),
        forall|i: int| 0 <= i < n ==> #[trigger] cnt_y_upto(s, md, i, 15) <= best_y(s, md, n).1,
    decreases n,
{
    crate::geometry::lemma_cnt_xy_bound(s, md, 0, 15);
    if n == 1 {
        assert(best_y(s, md, 0) == (0int, 0int));
    } else {
        lemma_best_y_char(s, md, n - 1);
    }
}

/// As `lemma_best_x_permutation`, on the y axis.
pub proof fn lemma_best_y_permutation(
    s: Seq<AgentPos>,
    t: Seq<AgentPos>,
    p: Seq<int>,
    q: Seq<int>,
    md: int,
)
    requires
        perm_pair_n(p, q, 15),
        permuted(t, s, p),
        forall|i: int|
            0 <= i < 15 && i != best_y(s, md, 15).0 ==> #[trigger] cnt_y_upto(s, md, i, 15)
                < best_y(s, md, 15).1,
    ensures
        t[best_y(t, md, 15).0].y == s[best_y(s, md, 15).0].y,
{
    lemma_best_y_char(s, md, 15);
    lemma_best_y_char(t, md, 15);
    let (bi, bc) = best_y(s, md, 15);
    let (ti, tc) = best_y(t, md, 15);
    assert forall|i: int| 0 <= i < 15 implies #[trigger] cnt_y_upto(t, md, i, 15) == cnt_y_upto(
        s,
        md,
        p[i],
        15,
    ) by {
        lemma_cnt_y_permutation(s, t, p, q, md, i);
    }
    assert(p[q[bi]] == bi);
    assert(cnt_y_upto(t, md, q[bi], 15) == bc);
    assert(bc <= tc);
    assert(cnt_y_upto(s, md, p[ti], 15) == tc);
    if p[ti] != bi {
        assert(cnt_y_upto(s, md, p[ti], 15) < bc);
    }
    assert(p[ti] == bi);
    assert(t[ti].y == s[p[ti]].y);
}

/// The mode index selects by value: permuting the agent slots leaves it
/// unchanged, provided exactly one agent attains the largest frequency on
/// each axis. (With a tie between agents at different coordinates the scan
/// keeps the earliest slot, and the chosen location can genuinely change.)
pub proof fn lemma_mode_permutation_invariant(
    s: Seq<AgentPos>,
    t: Seq<AgentPos>,
    p: Seq<int>,
    q: Seq<int>,
    md: int,
)
    requires
        perm_pair_n(p, q, 15),
        permuted(t, s, p),
        forall|i: int|
            0 <= i < 15 && i != best_x(s, md, 15).0 ==> #[trigger] cnt_x_upto(s, md, i, 15)
                < best_x(s, md, 15).1,
        forall|i: int|
            0 <= i < 15 && i != best_y(s, md, 15).0 ==> #[trigger] cnt_y_upto(s, md, i, 15)
                < best_y(s, md, 15).1,
    ensures
        mode_spec(t, md, sum_x(t), sum_y(t)) == mode_spec(s, md, sum_x(s), sum_y(s)),
{
    lemma_sums_permutation(s, t, p, q);
    lemma_best_x_permutation(s, t, p, q, md);
    lemma_best_y_permutation(s, t, p, q, md);
}


pub proof fn lemma_pair_dist_symmetric(s: Seq<AgentPos>, i: int, j: int)
    ensures
        pair_dist(s, i, j) == pair_dist(s, j, i),
        pair_dist(s, i, i) == 0,
{
    let a = s[i];
    let b = s[j];
    assert((a.x - b.x) * (a.x - b.x) == (b.x - a.x) * (b.x - a.x)) by (nonlinear_arith);
    assert((a.y - b.y) * (a.y - b.y) == (b.y - a.y) * (b.y - a.y)) by (nonlinear_arith);
    assert(spec_esq(s[i], s[j]) == spec_esq(s[j], s[i]));
    assert(spec_esq(s[i], s[i]) == 0);
}

/// Flat cell index of the agent pair `(a, b)` in a square matrix.
pub open spec fn cell(a: int, b: int) -> int {
    15 * a + b
}

/// The permutation of the flat pair matrix induced by `p`: a cell above the
/// diagonal goes to the ascending encoding of its image pair, one below to
/// the descending encoding, so the triangle maps onto itself.
pub open spec fn pair_perm(p: Seq<int>, k: int) -> int {
    let i = k / 15;
    let j = k % 15;
    let a = p[i];
    let b = p[j];
    if i < j {
        if a < b {
            cell(a, b)
        } else {
            cell(b, a)
        }
    } else if i > j {
        if a > b {
            cell(a, b)
        } else {
            cell(b, a)
        }
    } else {
        cell(a, a)
    }
}

pub proof fn lemma_cell_decode(a: int, b: int)
    requires
        0 <= a < 15,
        0 <= b < 15,
    ensures
        cell(a, b) / 15 == a,
        cell(a, b) % 15 == b,
        0 <= cell(a, b) < 225,
{
    vstd::arithmetic::div_mod::lemma_div_multiples_vanish_fancy(a, b, 15);
    vstd::arithmetic::div_mod::lemma_mod_multiples_vanish(a, b, 15);
    vstd::arithmetic::div_mod::lemma_small_mod(b as nat, 15);
}

/// The induced pair maps of `p` and `q` are mutually inverse on the flat
/// matrix.
pub proof fn lemma_pair_perm_bijective(p: Seq<int>, q: Seq<int>)
    requires
        perm_pair_n(p, q, 15),
    ensures
        perm_pair_n(
            Seq::new(225, |k: int| pair_perm(p, k)),
            Seq::new(225, |k: int| pair_perm(q, k)),
            225,
        ),
{
    let pp = Seq::new(225, |k: int| pair_perm(p, k));
    let qq = Seq::new(225, |k: int| pair_perm(q, k));
    assert forall|k: int| 0 <= k < 225 implies 0 <= #[trigger] pp[k] < 225 by {
        lemma_pair_perm_in_range(p, k);
    }
    assert forall|k: int| 0 <= k < 225 implies 0 <= #[trigger] qq[k] < 225 by {
        lemma_pair_perm_in_range(q, k);
    }
    assert forall|k: int| 0 <= k < 225 implies qq[#[trigger] pp[k]] == k by {
        lemma_pair_perm_inverse(p, q, k);
    }
    assert forall|k: int| 0 <= k < 225 implies pp[#[trigger] qq[k]] == k by {
        lemma_pair_perm_inverse(q, p, k);
    }
}

pub proof fn lemma_pair_perm_in_range(p: Seq<int>, k: int)
    requires
        p.len() == 15,
        forall|i: int| 0 <= i < 15 ==> 0 <= #[trigger] p[i] < 15,
        0 <= k < 225,
    ensures
        0 <= pair_perm(p, k) < 225,
{
    vstd::arithmetic::div_mod::lemma_mod_bound(k, 15);
    vstd::arithmetic::div_mod::lemma_fundamental_div_mod(k, 15);
    let i = k / 15;
    let j = k % 15;
    assert(0 <= i < 15) by (nonlinear_arith)
        requires
            15 * i + j == k,
            0 <= j < 15,
            0 <= k < 225,
    ;
}

pub proof fn lemma_pair_perm_inverse(p: Seq<int>, q: Seq<int>, k: int)
    requires
        perm_pair_n(p, q, 15) || perm_pair_n(q, p, 15),
        0 <= k < 225,
    ensures
        pair_perm(q, pair_perm(p, k)) == k,
{
    vstd::arithmetic::div_mod::lemma_mod_bound(k, 15);
    vstd::arithmetic::div_mod::lemma_fundamental_div_mod(k, 15);
    let i = k / 15;
    let j = k % 15;
    assert(0 <= i < 15) by (nonlinear_arith)
        requires
            15 * i + j == k,
            0 <= j < 15,
            0 <= k < 225,
    ;
    let a = p[i];
    let b = p[j];
    lemma_cell_decode(if a <= b { a } else { b }, if a <= b { b } else { a });
    lemma_cell_decode(if a <= b { b } else { a }, if a <= b { a } else { b });
    lemma_cell_decode(a, b);
    assert(q[p[i]] == i && q[p[j]] == j);
    assert(cell(i, j) == k);
}

/// The triangle cells of the pair-distance matrix, flattened; cells on or
/// below the diagonal are zero.
pub open spec fn tri_dist_flat(s: Seq<AgentPos>) -> Seq<int> {
    Seq::new(
        225,
        |k: int|
            if k / 15 < k % 15 {
                pair_dist(s, k / 15, k % 15)
            } else {
                0int
            },
    )
}

/// The triangle cells of the connectivity indicator matrix, flattened.
pub open spec fn tri_cnt_flat(s: Seq<AgentPos>, t: int) -> Seq<int> {
    Seq::new(
        225,
        |k: int|
            if k / 15 < k % 15 && 105 * pair_dist(s, k / 15, k % 15) < t {
                1int
            } else {
                0int
            },
    )
}

/// Walking the flat triangle row by row sums exactly the triangle totals.
pub proof fn lemma_tri_dist_flat_sum(s: Seq<AgentPos>, i: int, j: int)
    requires
        0 <= i < 15,
        0 <= j <= 15,
    ensures
        sum_prefix(tri_dist_flat(s), 15 * i + j) == total_upto(s, i) + if j > i {
            row_total(s, i, j)
        } else {
            0int
        },
    decreases i, j,
{
    let z = tri_dist_flat(s);
    if j == 0 {
        if i == 0 {
        } else {
            lemma_tri_dist_flat_sum(s, i - 1, 15);
        }
    } else {
        lemma_tri_dist_flat_sum(s, i, j - 1);
        lemma_cell_decode(i, j - 1);
        assert(z[15 * i + j - 1] == if i < j - 1 {
            pair_dist(s, i, j - 1)
        } else {
            0int
        });
    }
}

pub proof fn lemma_tri_cnt_flat_sum(s: Seq<AgentPos>, t: int, i: int, j: int)
    requires
        0 <= i < 15,
        0 <= j <= 15,
    ensures
        sum_prefix(tri_cnt_flat(s, t), 15 * i + j) == cnt_upto(s, i, t) + if j > i {
            row_cnt(s, i, j, t)
        } else {
            0int
        },
    decreases i, j,
{
    let z = tri_cnt_flat(s, t);
    if j == 0 {
        if i == 0 {
        } else {
            lemma_tri_cnt_flat_sum(s, t, i - 1, 15);
        }
    } else {
        lemma_tri_cnt_flat_sum(s, t, i, j - 1);
        lemma_cell_decode(i, j - 1);
        assert(z[15 * i + j - 1] == if i < j - 1 && 105 * pair_dist(s, i, j - 1) < t {
            1int
        } else {
            0int
        });
    }
}

/// Reading the flat triangle of the permuted snapshot is a reindexing of
/// the flat triangle of the original, so the triangle sums agree.
pub proof fn lemma_tri_flat_reindex(
    s: Seq<AgentPos>,
    t: Seq<AgentPos>,
    p: Seq<int>,
    q: Seq<int>,
    thr: int,
)
    requires
        perm_pair_n(p, q, 15),
        permuted(t, s, p),
    ensures
        sum_prefix(tri_dist_flat(t), 225) == sum_prefix(tri_dist_flat(s), 225),
        sum_prefix(tri_cnt_flat(t, thr), 225) == sum_prefix(tri_cnt_flat(s, thr), 225),
{
    let pp = Seq::new(225, |m: int| pair_perm(p, m));
    let qq = Seq::new(225, |m: int| pair_perm(q, m));
    lemma_pair_perm_bijective(p, q);
    let target_d = Seq::new(225, |k: int| tri_dist_flat(s)[pp[k]]);
    let target_c = Seq::new(225, |k: int| tri_cnt_flat(s, thr)[pp[k]]);
    assert forall|k: int| 0 <= k < 225 implies tri_dist_flat(t)[k] == target_d[k]
        && tri_cnt_flat(t, thr)[k] == target_c[k] by {
        lemma_pair_perm_in_range(p, k);
        vstd::arithmetic::div_mod::lemma_mod_bound(k, 15);
        vstd::arithmetic::div_mod::lemma_fundamental_div_mod(k, 15);
        let i = k / 15;
        let j = k % 15;
        assert(0 <= i < 15) by (nonlinear_arith)
            requires
                15 * i + j == k,
                0 <= j < 15,
                0 <= k < 225,
        ;
        let a = p[i];
        let b = p[j];
        lemma_cell_decode(if a <= b { a } else { b }, if a <= b { b } else { a });
        lemma_cell_decode(if a <= b { b } else { a }, if a <= b { a } else { b });
        if i < j {
            lemma_pair_dist_symmetric(s, a, b);
            assert(spec_esq(t[i], t[j]) == spec_esq(s[a], s[b]));
            assert(pair_dist(t, i, j) == pair_dist(s, a, b));
            assert(pair_dist(s, if a <= b { a } else { b }, if a <= b { b } else { a })
                == pair_dist(s, a, b));
        }
        assert(tri_dist_flat(t)[k] == tri_dist_flat(s)[pp[k]]);
        assert(tri_cnt_flat(t, thr)[k] == tri_cnt_flat(s, thr)[pp[k]]);
    }
    assert(tri_dist_flat(t) =~= target_d);
    assert(tri_cnt_flat(t, thr) =~= target_c);
    lemma_sum_reindex(tri_dist_flat(s), pp, qq);
    lemma_sum_reindex(tri_cnt_flat(s, thr), pp, qq);
}

/// The beta index is invariant under a permutation of the agent slots: the
/// pairwise distances form the same collection, so both the average and the
/// connected-pair count are unchanged.
pub proof fn lemma_beta_permutation_invariant(
    s: Seq<AgentPos>,
    t: Seq<AgentPos>,
    p: Seq<int>,
    q: Seq<int>,
)
    requires
        perm_pair_n(p, q, 15),
        permuted(t, s, p),
    ensures
        total_upto(t, 15) == total_upto(s, 15),
        beta_spec(t) == beta_spec(s),
{
    let thr = total_upto(s, 15);
    lemma_tri_flat_reindex(s, t, p, q, thr);
    lemma_tri_dist_flat_sum(s, 14, 15);
    lemma_tri_dist_flat_sum(t, 14, 15);
    assert(15 * 14 + 15 == 225);
    assert(total_upto(t, 15) == total_upto(s, 15));
    lemma_tri_cnt_flat_sum(s, thr, 14, 15);
    lemma_tri_cnt_flat_sum(t, thr, 14, 15);
}

} // verus!\n