//! Properties that relate several operations of the library.
use crate::fixed::{in_range, SCALE};
use crate::linear_regression::{is_range_of, Dataset};
use crate::model::{
    denormalized_a, denormalized_b, estimate_of, lemma_n_ss_total_nonnegative, lemma_spread_step, n_ss_total, spread_of, r2_of, residual, ss_residual, sum_of, sum_sq_of, sum_sq_res,
};
use vstd::arithmetic::div_mod::*;
use vstd::prelude::*;

verus! {

/// The bounds of a column are unique: caching them twice on unchanged
/// values yields the same `min` and `max`.
pub proof fn law_range_is_unique(s: Seq<i64>, lo1: int, hi1: int, lo2: int, hi2: int)
    requires
        is_range_of(s, lo1, hi1),
        is_range_of(s, lo2, hi2),
    ensures
        lo1 == lo2,
        hi1 == hi2,
{
    let i1 = choose|i: int| 0 <= i < s.len() && s[i] == lo1;
    let i2 = choose|i: int| 0 <= i < s.len() && s[i] == lo2;
    let j1 = choose|i: int| 0 <= i < s.len() && s[i] == hi1;
    let j2 = choose|i: int| 0 <= i < s.len() && s[i] == hi2;
    assert(lo2 <= s[i1] && lo1 <= s[i2]);
    assert(s[j1] <= hi2 && s[j2] <= hi1);
}

/// The estimate is linear: the difference of two estimates is the slope
/// times the difference of the mileages, up to one unit of rounding.
pub proof fn law_estimate_is_linear(a: int, b: int, x1: int, x2: int)
    requires
        in_range(a),
        in_range(b),
        in_range(x1),
        in_range(x2),
    ensures
        0 <= (estimate_of(a, b, x1) - estimate_of(a, b, x2)) - (a * (x1 - x2)) / (SCALE as int) <= 1,
{
    let s = SCALE as int;
    let p1 = a * x1;
    let p2 = a * x2;
    assert(a * (x1 - x2) == p1 - p2) by (nonlinear_arith)
        requires
            p1 == a * x1,
            p2 == a * x2,
    ;
    lemma_fundamental_div_mod(p1, s);
    lemma_fundamental_div_mod(p2, s);
    lemma_mod_bound(p1, s);
    lemma_mod_bound(p2, s);
    let q1 = p1 / s;
    let q2 = p2 / s;
    let r1 = p1 % s;
    let r2 = p2 % s;
    if r1 >= r2 {
        assert(p1 - p2 == (q1 - q2) * s + (r1 - r2)) by (nonlinear_arith)
            requires
                p1 == s * q1 + r1,
                p2 == s * q2 + r2,
        ;
        lemma_fundamental_div_mod_converse(p1 - p2, s, q1 - q2, r1 - r2);
    } else {
        assert(p1 - p2 == (q1 - q2 - 1) * s + (r1 - r2 + s)) by (nonlinear_arith)
            requires
                p1 == s * q1 + r1,
                p2 == s * q2 + r2,
        ;
        lemma_fundamental_div_mod_converse(p1 - p2, s, q1 - q2 - 1, r1 - r2 + s);
    }
}

/// Denormalization inverts the min-max rescaling of a fitted line. The
/// slope is the normalized slope times `range_y / range_x`, and at the
/// least mileage the line gives exactly `y.min + range_y * b`, the image of
/// the normalized line's value at 0. With the linearity of the estimate
/// this places the whole line, up to rounding.
pub proof fn law_denormalize_inverts_rescaling(a: int, b: int, dataset: &Dataset)
    requires
        dataset.x.min < dataset.x.max,
    ensures
        denormalized_a(a, dataset) == ((dataset.y.max - dataset.y.min) * a) / (dataset.x.max
            - dataset.x.min),
        estimate_of(denormalized_a(a, dataset), denormalized_b(denormalized_a(a, dataset), b, dataset), dataset.x.min as int)
            == ((dataset.y.max - dataset.y.min) * b) / (SCALE as int) + dataset.y.min,
{
}

/// A model whose estimates match every price has no residual, and its
/// coefficient of determination is exactly one.
pub proof fn law_perfect_fit(a: int, b: int, xs: Seq<i64>, ys: Seq<i64>)
    requires
        xs.len() == ys.len(),
        n_ss_total(ys) != 0,
        forall|i: int| 0 <= i < xs.len() ==> estimate_of(a, b, #[trigger] xs[i] as int) == ys[i],
    ensures
        ss_residual(a, b, xs, ys) == 0,
        r2_of(ss_residual(a, b, xs, ys), n_ss_total(ys), ys.len() as int) == SCALE,
{
    lemma_no_residual(a, b, xs, ys, xs.len());
    let w = SCALE * ys.len();
    assert(w * 0 == 0) by (nonlinear_arith);
    lemma_div_of0(n_ss_total(ys));
}

proof fn lemma_no_residual(a: int, b: int, xs: Seq<i64>, ys: Seq<i64>, k: nat)
    requires
        k <= xs.len(),
        xs.len() == ys.len(),
        forall|i: int| 0 <= i < xs.len() ==> estimate_of(a, b, #[trigger] xs[i] as int) == ys[i],
    ensures
        sum_sq_res(a, b, xs, ys, k) == 0,
    decreases k,
{
    if k > 0 {
        lemma_no_residual(a, b, xs, ys, (k - 1) as nat);
        assert(residual(a, b, xs[k - 1] as int, ys[k - 1] as int) == 0);
    }
}

/// Whenever the coefficient of determination is defined (the prices are
/// not all equal) it is at most one; it has no lower bound.
pub proof fn law_determination_at_most_one(a: int, b: int, xs: Seq<i64>, ys: Seq<i64>)
    requires
        n_ss_total(ys) != 0,
    ensures
        n_ss_total(ys) > 0,
        r2_of(ss_residual(a, b, xs, ys), n_ss_total(ys), ys.len() as int) <= SCALE,
{
    lemma_n_ss_total_nonnegative(ys, ys.len());
    lemma_sq_res_nonnegative(a, b, xs, ys, xs.len());
    let res = ss_residual(a, b, xs, ys);
    let w = SCALE * ys.len();
    assert(w * res >= 0) by (nonlinear_arith)
        requires
            res >= 0,
            w >= 0,
    ;
    lemma_div_pos_is_pos(w * res, n_ss_total(ys));
}

proof fn lemma_sq_res_nonnegative(a: int, b: int, xs: Seq<i64>, ys: Seq<i64>, k: nat)
    ensures
        sum_sq_res(a, b, xs, ys, k) >= 0,
    decreases k,
{
    if k > 0 {
        lemma_sq_res_nonnegative(a, b, xs, ys, (k - 1) as nat);
        let e = residual(a, b, xs[k - 1] as int, ys[k - 1] as int);
        assert(e * e >= 0) by (nonlinear_arith);
    }
}

/// When every price is the same the total sum of squares is zero, so the
/// coefficient of determination is undefined.
pub proof fn law_constant_prices_are_degenerate(ys: Seq<i64>, c: i64)
    requires
        forall|i: int| 0 <= i < ys.len() ==> #[trigger] ys[i] == c,
    ensures
        n_ss_total(ys) == 0,
{
    lemma_sums_of_constant(ys, c, ys.len());
    let n = ys.len() as int;
    assert(n * (n * (c * c)) - (n * c) * (n * c) == 0) by (nonlinear_arith);
}

proof fn lemma_sums_of_constant(ys: Seq<i64>, c: i64, k: nat)
    requires
        k <= ys.len(),
        forall|i: int| 0 <= i < k ==> #[trigger] ys[i] == c,
    ensures
        sum_of(ys, k) == k * c,
        sum_sq_of(ys, k) == k * (c * c),
    decreases k,
{
    if k > 0 {
        lemma_sums_of_constant(ys, c, (k - 1) as nat);
        assert(ys[k - 1] == c);
        assert((k - 1) * c + c == k * c) by (nonlinear_arith);
        assert((k - 1) * (c * c) + c * c == k * (c * c)) by (nonlinear_arith);
    }
}

/// The coefficient of determination is undefined exactly when all prices
/// are equal.
pub proof fn law_degenerate_iff_constant(ys: Seq<i64>)
    requires
        ys.len() > 0,
    ensures
        n_ss_total(ys) == 0 <==> forall|i: int| 0 <= i < ys.len() ==> #[trigger] ys[i] == ys[0],
{
    if forall|i: int| 0 <= i < ys.len() ==> #[trigger] ys[i] == ys[0] {
        law_constant_prices_are_degenerate(ys, ys[0]);
    }
    if n_ss_total(ys) == 0 {
        lemma_zero_spread_is_constant(ys, ys.len());
    }
}

proof fn lemma_zero_spread_is_constant(s: Seq<i64>, k: nat)
    requires
        0 < k <= s.len(),
        spread_of(s, k) == 0,
    ensures
        forall|i: int| 0 <= i < k ==> #[trigger] s[i] == s[0],
    decreases k,
{
    if k > 1 {
        let j = (k - 1) as nat;
        lemma_spread_step(s, k);
        lemma_n_ss_total_nonnegative(s, j);
        let q = sum_sq_of(s, j);
        let t = sum_of(s, j);
        let y = s[k - 1] as int;
        let inc = q + j * y * y - 2 * t * y;
        assert((t - j * y) * (t - j * y) >= 0) by (nonlinear_arith);
        assert(inc >= 0) by (nonlinear_arith)
            requires
                j * inc >= 0,
                j > 0,
        ;
        assert(spread_of(s, j) == 0 && inc == 0);
        lemma_zero_spread_is_constant(s, j);
        let c = s[0];
        lemma_sums_of_constant(s, c, j);
        assert(t == j * c);
        assert((t - j * y) * (t - j * y) <= 0) by (nonlinear_arith)
            requires
                j * inc >= (t - j * y) * (t - j * y),
                inc == 0,
        ;
        assert(y == c) by (nonlinear_arith)
            requires
                (t - j * y) * (t - j * y) <= 0,
                t == j * c,
                j > 0,
        ;
    }
}

} // verus!
