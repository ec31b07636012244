//! The linear model `price = a * mileage + b` and its training.
use crate::fixed::{floor_div, in_range, lemma_mean_magnitude, lemma_mul_magnitude, MAX_ROWS, SCALE, VALUE_LIMIT};
use crate::linear_regression::{Dataset, RegressionError};
use vstd::arithmetic::div_mod::*;
use vstd::prelude::*;

verus! {

/// Bound on the magnitude of a residual of a well-formed model on in-range
/// data.
pub const RESIDUAL_BOUND: i128 = 5000000000000000000;

/// Bound on the magnitude of a residual times a mileage.
pub const TERM_BOUND: i128 = 10000000000000000000000000000000;

/// The model's estimate at `x`: `a * x + b` in fixed point.
pub open spec fn estimate_of(a: int, b: int, x: int) -> int {
    (a * x) / (SCALE as int) + b
}

/// How far the estimate at `x` lies above `y`.
pub open spec fn residual(a: int, b: int, x: int, y: int) -> int {
    estimate_of(a, b, x) - y
}

/// Sum over the first `k` rows of residual times mileage.
pub open spec fn sum_residual_x(a: int, b: int, xs: Seq<i64>, ys: Seq<i64>, k: nat) -> int
    decreases k,
{
    if k == 0 {
        0
    } else {
        sum_residual_x(a, b, xs, ys, (k - 1) as nat) + residual(a, b, xs[k - 1] as int, ys[k - 1] as int)
            * xs[k - 1]
    }
}

/// Sum over the first `k` rows of the residuals.
pub open spec fn sum_residual(a: int, b: int, xs: Seq<i64>, ys: Seq<i64>, k: nat) -> int
    decreases k,
{
    if k == 0 {
        0
    } else {
        sum_residual(a, b, xs, ys, (k - 1) as nat) + residual(a, b, xs[k - 1] as int, ys[k - 1] as int)
    }
}

/// Mean of residual times mileage: the gradient of the cost in `a`.
pub open spec fn cost_a_of(a: int, b: int, xs: Seq<i64>, ys: Seq<i64>) -> int {
    (sum_residual_x(a, b, xs, ys, xs.len()) / (xs.len() as int)) / (SCALE as int)
}

/// Mean of the residuals: the gradient of the cost in `b`.
pub open spec fn cost_b_of(a: int, b: int, xs: Seq<i64>, ys: Seq<i64>) -> int {
    sum_residual(a, b, xs, ys, xs.len()) / (xs.len() as int)
}

/// One simultaneous gradient-descent update of `(a, b)`.
pub open spec fn step_of(a: int, b: int, lr: int, xs: Seq<i64>, ys: Seq<i64>) -> (int, int) {
    (
        a - (lr * cost_a_of(a, b, xs, ys)) / (SCALE as int),
        b - (lr * cost_b_of(a, b, xs, ys)) / (SCALE as int),
    )
}

/// The parameters after `k` updates from `(a, b)`, or `None` when one of
/// them leaves the representable range on the way.
pub open spec fn trained(a: int, b: int, lr: int, xs: Seq<i64>, ys: Seq<i64>, k: nat) -> Option<(int, int)>
    decreases k,
{
    if k == 0 {
        Some((a, b))
    } else {
        match trained(a, b, lr, xs, ys, (k - 1) as nat) {
            None => None,
            Some(p) => {
                let q = step_of(p.0, p.1, lr, xs, ys);
                if in_range(q.0) && in_range(q.1) {
                    Some(q)
                } else {
                    None
                }
            },
        }
    }
}

/// Slope in original units: `(range_y / range_x) * a`.
pub open spec fn denormalized_a(a: int, dataset: &Dataset) -> int {
    ((dataset.y.max - dataset.y.min) * a) / (dataset.x.max - dataset.x.min)
}

/// Intercept in original units, from the already rescaled slope `a`:
/// `range_y * b + y.min - a * x.min`. With the slope above this inverts the
/// rescaling: the line `y_n = a_n * x_n + b_n` over
/// `x_n = (x - x.min) / range_x`, `y_n = (y - y.min) / range_y` is
/// `y = a * x + b`.
pub open spec fn denormalized_b(a: int, b: int, dataset: &Dataset) -> int {
    ((dataset.y.max - dataset.y.min) * b) / (SCALE as int) + dataset.y.min - (a * dataset.x.min) / (
    SCALE as int)
}

/// Dividing by a positive divisor keeps a bound on the magnitude.
pub proof fn lemma_div_shrinks(s: int, d: int, m: int)
    requires
        d >= 1,
        -m <= s <= m,
    ensures
        -m <= s / d <= m,
{
    assert(m <= d * m) by (nonlinear_arith)
        requires
            d >= 1,
            m >= 0,
    ;
    lemma_mean_magnitude(s, d, m);
}

/// A parameter that left the range stays lost for every later step.
pub proof fn lemma_trained_stays_none(a: int, b: int, lr: int, xs: Seq<i64>, ys: Seq<i64>, k: nat, m: nat)
    requires
        k <= m,
        trained(a, b, lr, xs, ys, k) is None,
    ensures
        trained(a, b, lr, xs, ys, m) is None,
    decreases m - k,
{
    if k < m {
        lemma_trained_stays_none(a, b, lr, xs, ys, k, (m - 1) as nat);
    }
}

/// Sum of the first `k` values.
pub open spec fn sum_of(s: Seq<i64>, k: nat) -> int
    decreases k,
{
    if k == 0 {
        0
    } else {
        sum_of(s, (k - 1) as nat) + s[k - 1]
    }
}

/// Sum of the squares of the first `k` values.
pub open spec fn sum_sq_of(s: Seq<i64>, k: nat) -> int
    decreases k,
{
    if k == 0 {
        0
    } else {
        sum_sq_of(s, (k - 1) as nat) + s[k - 1] * s[k - 1]
    }
}

/// `k * sum(y^2) - sum(y)^2` over the first `k` values: `k` times their
/// sum of squared distances to their mean.
pub open spec fn spread_of(s: Seq<i64>, k: nat) -> int {
    k * sum_sq_of(s, k) - sum_of(s, k) * sum_of(s, k)
}

/// `n` times the total sum of squares of the prices around their mean.
pub open spec fn n_ss_total(ys: Seq<i64>) -> int {
    spread_of(ys, ys.len())
}

/// Sum over the first `k` rows of the squared residuals.
pub open spec fn sum_sq_res(a: int, b: int, xs: Seq<i64>, ys: Seq<i64>, k: nat) -> int
    decreases k,
{
    if k == 0 {
        0
    } else {
        let e = residual(a, b, xs[k - 1] as int, ys[k - 1] as int);
        sum_sq_res(a, b, xs, ys, (k - 1) as nat) + e * e
    }
}

/// Residual sum of squares of the model on the dataset.
pub open spec fn ss_residual(a: int, b: int, xs: Seq<i64>, ys: Seq<i64>) -> int {
    sum_sq_res(a, b, xs, ys, xs.len())
}

/// `1 - n * res / n_tot` in fixed point, for `n` rows.
pub open spec fn r2_of(res: int, n_tot: int, n: int) -> int {
    SCALE - ((SCALE * n) * res) / n_tot
}

/// The metric's product fits in 128 bits and its value in an `i64`.
pub open spec fn metric_fits(res: int, n_tot: int, n: int) -> bool {
    (SCALE * n) * res <= i128::MAX && r2_of(res, n_tot, n) >= i64::MIN
}

/// Adding the `k`-th value to the first `k - 1` raises the spread by an
/// amount `inc` with `(k - 1) * inc >= (sum - (k - 1) * y)^2`.
pub proof fn lemma_spread_step(s: Seq<i64>, k: nat)
    requires
        0 < k <= s.len(),
    ensures
        ({
            let j = (k - 1) as nat;
            let q = sum_sq_of(s, j);
            let t = sum_of(s, j);
            let y = s[k - 1] as int;
            let inc = q + j * y * y - 2 * t * y;
            &&& spread_of(s, k) == spread_of(s, j) + inc
            &&& j * inc >= spread_of(s, j) + (t - j * y) * (t - j * y)
        }),
{
    let j = (k - 1) as nat;
    let q = sum_sq_of(s, j);
    let t = sum_of(s, j);
    let y = s[k - 1] as int;
    assert(sum_sq_of(s, k) == q + y * y);
    assert(sum_of(s, k) == t + y);
    assert(k * (q + y * y) - (t + y) * (t + y) == (j * q - t * t) + (q + j * y * y - 2 * t * y))
        by (nonlinear_arith)
        requires
            k == j + 1,
    ;
    assert(j * (q + j * y * y - 2 * t * y) == (j * q - t * t) + (t - j * y) * (t - j * y))
        by (nonlinear_arith);
}

/// `k * sum(y^2) >= sum(y)^2`: the spread of any values is non-negative.
pub proof fn lemma_n_ss_total_nonnegative(s: Seq<i64>, k: nat)
    requires
        k <= s.len(),
    ensures
        spread_of(s, k) >= 0,
    decreases k,
{
    if k > 0 {
        let j = (k - 1) as nat;
        lemma_n_ss_total_nonnegative(s, j);
        lemma_spread_step(s, k);
        let t = sum_of(s, j);
        let y = s[k - 1] as int;
        let inc = sum_sq_of(s, j) + j * y * y - 2 * t * y;
        if j == 0 {
            assert(sum_sq_of(s, 0) == 0 && sum_of(s, 0) == 0);
            assert(inc == 0) by (nonlinear_arith)
                requires
                    j == 0,
                    t == 0,
                    inc == sum_sq_of(s, j) + j * y * y - 2 * t * y,
                    sum_sq_of(s, j) == 0,
            ;
        } else {
            assert((t - j * y) * (t - j * y) >= 0) by (nonlinear_arith);
            assert(inc >= 0) by (nonlinear_arith)
                requires
                    j * inc >= 0,
                    j > 0,
            ;
        }
    }
}

/// For non-negative `w` and `v`, `w * v` fits in 128 bits exactly when
/// `v` is at most `i128::MAX / w`.
proof fn lemma_product_fits(w: int, v: int)
    requires
        w > 0,
        v >= 0,
    ensures
        w * v <= i128::MAX <==> v <= (i128::MAX as int) / w,
{
    let m = i128::MAX as int;
    lemma_fundamental_div_mod(m, w);
    lemma_mod_bound(m, w);
    let q = m / w;
    let r = m % w;
    assert(w * v <= m <==> v <= q) by (nonlinear_arith)
        requires
            m == w * q + r,
            0 <= r < w,
            w > 0,
    {
        if v <= q {
            assert(w * v <= w * q);
        } else {
            assert(w * v >= w * (q + 1));
        }
    }
}

/// Partial sums of squared residuals never decrease.
pub proof fn lemma_sum_sq_res_grows(a: int, b: int, xs: Seq<i64>, ys: Seq<i64>, k: nat, m: nat)
    requires
        k <= m,
    ensures
        sum_sq_res(a, b, xs, ys, k) <= sum_sq_res(a, b, xs, ys, m),
    decreases m - k,
{
    if k < m {
        lemma_sum_sq_res_grows(a, b, xs, ys, k, (m - 1) as nat);
        let e = residual(a, b, xs[m - 1] as int, ys[m - 1] as int);
        assert(e * e >= 0) by (nonlinear_arith);
    }
}

/// A fitted (or fresh) linear model.
#[derive(Debug, Clone, Copy, PartialEq, Eq, Structural)]
pub struct LinearModel {
    pub a: i64,
    pub b: i64,
    pub learning_rate: i64,
}

impl LinearModel {
    /// Parameters in range and a positive learning rate.
    pub open spec fn wf(&self) -> bool {
        &&& in_range(self.a as int)
        &&& in_range(self.b as int)
        &&& 0 < self.learning_rate <= VALUE_LIMIT
    }

    /// A fresh model: `a = 0`, `b = 0`, learning rate 0.2.
    pub fn new() -> (r: Self)
        ensures
            r.a == 0,
            r.b == 0,
            r.learning_rate == SCALE / 5,
            r.wf(),
    {
        LinearModel { a: 0, b: 0, learning_rate: SCALE / 5 }
    }

    /// `a * x + b`.
    pub fn estimate(&self, x: i64) -> (r: i64)
        requires
            self.wf(),
            in_range(x as int),
        ensures
            r == estimate_of(self.a as int, self.b as int, x as int),
    {
        proof {
            lemma_estimate_bound(self.a as int, self.b as int, x as int);
        }
        let p: i128 = self.a as i128 * x as i128;
        let q: i128 = floor_div(p, SCALE as i128);
        (q + self.b as i128) as i64
    }

    /// Mean over the dataset of residual times mileage, in fixed point.
    pub fn cost_a(&self, dataset: &Dataset) -> (r: Result<i128, RegressionError>)
        requires
            self.wf(),
            dataset.wf(),
        ensures
            r == Err::<i128, _>(RegressionError::EmptyDataset) <==> dataset.size() == 0,
            r is Ok <==> dataset.size() > 0,
            r is Ok ==> r->Ok_0 == cost_a_of(self.a as int, self.b as int, dataset.x@, dataset.y@),
    {
        let n = dataset.len();
        if n == 0 {
            return Err(RegressionError::EmptyDataset);
        }
        let mut sum: i128 = 0;
        let mut i: usize = 0;
        while i < n
            invariant
                self.wf(),
                dataset.wf(),
                n == dataset.size(),
                0 <= i <= n,
                sum == sum_residual_x(self.a as int, self.b as int, dataset.x@, dataset.y@, i as nat),
                -(i * TERM_BOUND) <= sum <= i * TERM_BOUND,
            decreases n - i,
        {
            let x = dataset.x.data[i];
            let y = dataset.y.data[i];
            assert(in_range(dataset.x@[i as int] as int) && in_range(dataset.y@[i as int] as int));
            proof {
                lemma_residual_bound(self.a as int, self.b as int, x as int, y as int);
            }
            let e: i128 = self.estimate(x) as i128 - y as i128;
            sum = sum + e * x as i128;
            i = i + 1;
        }
        proof {
            lemma_mean_magnitude(sum as int, n as int, TERM_BOUND as int);
        }
        let mean: i128 = floor_div(sum, n as i128);
        Ok(floor_div(mean, SCALE as i128))
    }

    /// Mean over the dataset of the residuals.
    pub fn cost_b(&self, dataset: &Dataset) -> (r: Result<i128, RegressionError>)
        requires
            self.wf(),
            dataset.wf(),
        ensures
            r == Err::<i128, _>(RegressionError::EmptyDataset) <==> dataset.size() == 0,
            r is Ok <==> dataset.size() > 0,
            r is Ok ==> r->Ok_0 == cost_b_of(self.a as int, self.b as int, dataset.x@, dataset.y@),
    {
        let n = dataset.len();
        if n == 0 {
            return Err(RegressionError::EmptyDataset);
        }
        let mut sum: i128 = 0;
        let mut i: usize = 0;
        while i < n
            invariant
                self.wf(),
                dataset.wf(),
                n == dataset.size(),
                0 <= i <= n,
                sum == sum_residual(self.a as int, self.b as int, dataset.x@, dataset.y@, i as nat),
                -(i * RESIDUAL_BOUND) <= sum <= i * RESIDUAL_BOUND,
            decreases n - i,
        {
            let x = dataset.x.data[i];
            let y = dataset.y.data[i];
            assert(in_range(dataset.x@[i as int] as int) && in_range(dataset.y@[i as int] as int));
            proof {
                lemma_residual_bound(self.a as int, self.b as int, x as int, y as int);
            }
            sum = sum + (self.estimate(x) as i128 - y as i128);
            i = i + 1;
        }
        Ok(floor_div(sum, n as i128))
    }

    /// Runs exactly `size` gradient-descent steps. The dataset must not be
    /// empty, even for zero steps. When a parameter would leave the range
    /// the model is left as it was before the call.
    pub fn train(&mut self, dataset: &Dataset, size: usize) -> (r: Result<(), RegressionError>)
        requires
            old(self).wf(),
            dataset.wf(),
        ensures
            final(self).wf(),
            final(self).learning_rate == old(self).learning_rate,
            r == Err::<(), _>(RegressionError::EmptyDataset) <==> dataset.size() == 0,
            r == Err::<(), _>(RegressionError::Overflow) <==> dataset.size() > 0 && trained(
                old(self).a as int,
                old(self).b as int,
                old(self).learning_rate as int,
                dataset.x@,
                dataset.y@,
                size as nat,
            ) is None,
            r is Ok <==> dataset.size() > 0 && trained(
                old(self).a as int,
                old(self).b as int,
                old(self).learning_rate as int,
                dataset.x@,
                dataset.y@,
                size as nat,
            ) is Some,
            r is Ok ==> trained(
                old(self).a as int,
                old(self).b as int,
                old(self).learning_rate as int,
                dataset.x@,
                dataset.y@,
                size as nat,
            ) == Some((final(self).a as int, final(self).b as int)),
            r is Err ==> *final(self) == *old(self),
    {
        if dataset.len() == 0 {
            return Err(RegressionError::EmptyDataset);
        }
        let start = *self;
        let mut k: usize = 0;
        while k < size
            invariant
                self.wf(),
                dataset.wf(),
                dataset.size() > 0,
                start.wf(),
                self.learning_rate == start.learning_rate,
                start == *old(self),
                0 <= k <= size,
                trained(start.a as int, start.b as int, start.learning_rate as int, dataset.x@, dataset.y@, k as nat)
                    == Some((self.a as int, self.b as int)),
            decreases size - k,
        {
            let ghost before = *self;
            match self.gradient_descent(dataset) {
                Ok(()) => {
                    assert(trained(start.a as int, start.b as int, start.learning_rate as int, dataset.x@, dataset.y@, (k + 1) as nat)
                        == Some((self.a as int, self.b as int)));
                },
                Err(e) => {
                    proof {
                        reveal_with_fuel(trained, 2);
                        assert(e == RegressionError::Overflow);
                        assert(*self == before);
                        assert(trained(before.a as int, before.b as int, before.learning_rate as int, dataset.x@, dataset.y@, 1) is None);
                        assert(trained(start.a as int, start.b as int, start.learning_rate as int, dataset.x@, dataset.y@, (k + 1) as nat) is None);
                        lemma_trained_stays_none(start.a as int, start.b as int, start.learning_rate as int, dataset.x@, dataset.y@, (k + 1) as nat, size as nat);
                    }
                    *self = start;
                    return Err(e);
                },
            }
            k = k + 1;
        }
        Ok(())
    }

    /// Maps parameters fitted on normalized data back to the original
    /// units, from the bounds cached on the dataset's columns. The slope is
    /// rescaled first; the intercept is then corrected with the rescaled
    /// slope. Nothing changes when the mileage column is constant or a
    /// parameter would leave the range.
    pub fn denormalize(&mut self, dataset: &Dataset) -> (r: Result<(), RegressionError>)
        requires
            old(self).wf(),
            dataset.wf(),
        ensures
            final(self).wf(),
            final(self).learning_rate == old(self).learning_rate,
            r == Err::<(), _>(RegressionError::DegenerateRange) <==> dataset.x.min == dataset.x.max,
            r == Err::<(), _>(RegressionError::Overflow) <==> dataset.x.min != dataset.x.max && !(
            in_range(denormalized_a(old(self).a as int, dataset)) && in_range(
                denormalized_b(denormalized_a(old(self).a as int, dataset), old(self).b as int, dataset),
            )),
            r is Ok <==> dataset.x.min != dataset.x.max && in_range(denormalized_a(old(self).a as int, dataset))
                && in_range(denormalized_b(denormalized_a(old(self).a as int, dataset), old(self).b as int, dataset)),
            r is Ok ==> final(self).a == denormalized_a(old(self).a as int, dataset),
            r is Ok ==> final(self).b == denormalized_b(final(self).a as int, old(self).b as int, dataset),
            r is Err ==> *final(self) == *old(self),
    {
        let x_min = dataset.x.min as i128;
        let range_x: i128 = dataset.x.max as i128 - x_min;
        let range_y: i128 = dataset.y.max as i128 - dataset.y.min as i128;
        if range_x == 0 {
            return Err(RegressionError::DegenerateRange);
        }
        proof {
            lemma_mul_magnitude(range_y as int, self.a as int, 2 * VALUE_LIMIT, VALUE_LIMIT as int);
            lemma_mul_magnitude(range_y as int, self.b as int, 2 * VALUE_LIMIT, VALUE_LIMIT as int);
            lemma_div_is_ordered(range_y * self.a, 8000000000000000000000000, range_x as int);
            lemma_div_is_ordered(-8000000000000000000000000, range_y * self.a, range_x as int);
            lemma_div_is_ordered(range_y * self.b, 8000000000000000000000000, SCALE as int);
            lemma_div_is_ordered(-8000000000000000000000000, range_y * self.b, SCALE as int);
        }
        let a = floor_div(range_y * self.a as i128, range_x);
        if a < -(VALUE_LIMIT as i128) || a > VALUE_LIMIT as i128 {
            return Err(RegressionError::Overflow);
        }
        proof {
            lemma_mul_magnitude(a as int, x_min as int, VALUE_LIMIT as int, VALUE_LIMIT as int);
            lemma_div_shrinks(a * x_min, SCALE as int, 4000000000000000000000000);
        }
        let b = floor_div(range_y * self.b as i128, SCALE as i128) + dataset.y.min as i128 - floor_div(
            a * x_min,
            SCALE as i128,
        );
        if b < -(VALUE_LIMIT as i128) || b > VALUE_LIMIT as i128 {
            return Err(RegressionError::Overflow);
        }
        self.a = a as i64;
        self.b = b as i64;
        Ok(())
    }

    /// Coefficient of determination `1 - SS_residual / SS_total` of the
    /// model on the dataset, in fixed point. `SS_total` is taken around the
    /// exact mean, as `n * SS_total = n * sum(y^2) - sum(y)^2`, so
    /// `R^2 = 1 - n * SS_residual / (n * SS_total)`. It is undefined, and
    /// refused, when all prices are equal. `Overflow` comes when `R^2` is
    /// below what an `i64` holds, or when `n * SCALE * SS_residual` does not
    /// fit in 128 bits.
    pub fn determination_coefficient(&self, dataset: &Dataset) -> (r: Result<i64, RegressionError>)
        requires
            self.wf(),
            dataset.wf(),
        ensures
            r == Err::<i64, _>(RegressionError::EmptyDataset) <==> dataset.size() == 0,
            r == Err::<i64, _>(RegressionError::DegenerateMetric) <==> dataset.size() > 0
                && n_ss_total(dataset.y@) == 0,
            r == Err::<i64, _>(RegressionError::Overflow) <==> dataset.size() > 0 && n_ss_total(dataset.y@)
                != 0 && !metric_fits(
                ss_residual(self.a as int, self.b as int, dataset.x@, dataset.y@),
                n_ss_total(dataset.y@),
                dataset.size() as int,
            ),
            r is Ok <==> dataset.size() > 0 && n_ss_total(dataset.y@) != 0 && metric_fits(
                ss_residual(self.a as int, self.b as int, dataset.x@, dataset.y@),
                n_ss_total(dataset.y@),
                dataset.size() as int,
            ),
            r is Ok ==> r->Ok_0 == r2_of(
                ss_residual(self.a as int, self.b as int, dataset.x@, dataset.y@),
                n_ss_total(dataset.y@),
                dataset.size() as int,
            ),
            r is Ok ==> r->Ok_0 <= SCALE,
    {
        let n = dataset.len();
        if n == 0 {
            return Err(RegressionError::EmptyDataset);
        }
        let ghost xs = dataset.x@;
        let ghost ys = dataset.y@;
        let mut total: i128 = 0;
        let mut squares: i128 = 0;
        let mut i: usize = 0;
        while i < n
            invariant
                dataset.wf(),
                n == dataset.size(),
                ys == dataset.y@,
                0 <= i <= n,
                total == sum_of(ys, i as nat),
                squares == sum_sq_of(ys, i as nat),
                -(i * VALUE_LIMIT) <= total <= i * VALUE_LIMIT,
                0 <= squares <= i * 4000000000000000000000000,
            decreases n - i,
        {
            assert(in_range(ys[i as int] as int));
            let y = dataset.y.data[i] as i128;
            proof {
                lemma_mul_magnitude(y as int, y as int, VALUE_LIMIT as int, VALUE_LIMIT as int);
                assert(y * y >= 0) by (nonlinear_arith);
            }
            total = total + y;
            squares = squares + y * y;
            i = i + 1;
        }
        proof {
            lemma_mul_magnitude(n as int, squares as int, MAX_ROWS as int, MAX_ROWS * 4000000000000000000000000);
            lemma_mul_magnitude(total as int, total as int, MAX_ROWS * VALUE_LIMIT, MAX_ROWS * VALUE_LIMIT);
            lemma_n_ss_total_nonnegative(ys, n as nat);
        }
        let spread: i128 = n as i128 * squares - total * total;
        if spread == 0 {
            return Err(RegressionError::DegenerateMetric);
        }
        let mut ssr: i128 = 0;
        let mut i: usize = 0;
        while i < n
            invariant
                self.wf(),
                dataset.wf(),
                n == dataset.size(),
                xs == dataset.x@,
                ys == dataset.y@,
                0 <= i <= n,
                ssr == sum_sq_res(self.a as int, self.b as int, xs, ys, i as nat),
                0 <= ssr,
                spread == n_ss_total(ys),
                spread > 0,
            decreases n - i,
        {
            let x = dataset.x.data[i];
            let y = dataset.y.data[i];
            assert(in_range(xs[i as int] as int) && in_range(ys[i as int] as int));
            proof {
                lemma_residual_bound(self.a as int, self.b as int, x as int, y as int);
            }
            let e: i128 = self.estimate(x) as i128 - y as i128;
            proof {
                lemma_mul_magnitude(e as int, e as int, RESIDUAL_BOUND as int, RESIDUAL_BOUND as int);
                assert(e * e >= 0) by (nonlinear_arith);
            }
            let sq: i128 = e * e;
            if sq > i128::MAX - ssr {
                proof {
                    lemma_sum_sq_res_grows(self.a as int, self.b as int, xs, ys, (i + 1) as nat, n as nat);
                    let total_res = ss_residual(self.a as int, self.b as int, xs, ys);
                    assert((SCALE * n) * total_res >= total_res) by (nonlinear_arith)
                        requires
                            n >= 1,
                            total_res >= 0,
                    ;
                }
                return Err(RegressionError::Overflow);
            }
            ssr = ssr + sq;
            i = i + 1;
        }
        assert(n <= MAX_ROWS);
        assert(SCALE * n <= SCALE * MAX_ROWS) by (nonlinear_arith)
            requires
                n <= MAX_ROWS,
        ;
        let weight: i128 = SCALE as i128 * n as i128;
        if ssr > i128::MAX / weight {
            proof {
                lemma_product_fits(weight as int, ssr as int);
            }
            return Err(RegressionError::Overflow);
        }
        proof {
            lemma_product_fits(weight as int, ssr as int);
            assert(weight * ssr >= 0) by (nonlinear_arith)
                requires
                    weight >= 0,
                    ssr >= 0,
            ;
        }
        let q: i128 = (weight * ssr) / spread;
        proof {
            lemma_div_pos_is_pos(weight * ssr, spread as int);
        }
        if q > (SCALE as i128) - (i64::MIN as i128) {
            return Err(RegressionError::Overflow);
        }
        Ok((SCALE as i128 - q) as i64)
    }

    /// Replaces the parameters with a stored record `(a, b, learning_rate)`.
    /// Nothing changes when a field is out of range or the learning rate is
    /// not positive.
    pub fn load(&mut self, record: (i64, i64, i64)) -> (r: Result<(), RegressionError>)
        requires
            old(self).wf(),
        ensures
            final(self).wf(),
            r == Err::<(), _>(RegressionError::ValueOutOfRange) <==> !(in_range(record.0 as int) && in_range(
                record.1 as int,
            ) && 0 < record.2 <= VALUE_LIMIT),
            r is Ok <==> (in_range(record.0 as int) && in_range(record.1 as int) && 0 < record.2 <= VALUE_LIMIT),
            r is Ok ==> final(self).a == record.0 && final(self).b == record.1 && final(self).learning_rate
                == record.2,
            r is Err ==> *final(self) == *old(self),
    {
        let (a, b, learning_rate) = record;
        if a < -VALUE_LIMIT || a > VALUE_LIMIT || b < -VALUE_LIMIT || b > VALUE_LIMIT || learning_rate <= 0
            || learning_rate > VALUE_LIMIT {
            return Err(RegressionError::ValueOutOfRange);
        }
        *self = LinearModel { a, b, learning_rate };
        Ok(())
    }

    /// The record `(a, b, learning_rate)` that persistence stores.
    pub fn save(&self) -> (r: (i64, i64, i64))
        ensures
            r == (self.a, self.b, self.learning_rate),
    {
        (self.a, self.b, self.learning_rate)
    }

    /// One step of batch gradient descent: both gradients are taken at the
    /// current `(a, b)`, then both parameters move together. Nothing changes
    /// when the dataset is empty or a parameter would leave the range.
    pub fn gradient_descent(&mut self, dataset: &Dataset) -> (r: Result<(), RegressionError>)
        requires
            old(self).wf(),
            dataset.wf(),
        ensures
            final(self).wf(),
            final(self).learning_rate == old(self).learning_rate,
            r == Err::<(), _>(RegressionError::EmptyDataset) <==> dataset.size() == 0,
            r == Err::<(), _>(RegressionError::Overflow) <==> dataset.size() > 0 && trained(
                old(self).a as int,
                old(self).b as int,
                old(self).learning_rate as int,
                dataset.x@,
                dataset.y@,
                1,
            ) is None,
            r is Ok <==> dataset.size() > 0 && trained(
                old(self).a as int,
                old(self).b as int,
                old(self).learning_rate as int,
                dataset.x@,
                dataset.y@,
                1,
            ) is Some,
            r is Ok ==> trained(
                old(self).a as int,
                old(self).b as int,
                old(self).learning_rate as int,
                dataset.x@,
                dataset.y@,
                1,
            ) == Some((final(self).a as int, final(self).b as int)),
            r is Ok ==> (final(self).a as int, final(self).b as int) == step_of(
                old(self).a as int,
                old(self).b as int,
                old(self).learning_rate as int,
                dataset.x@,
                dataset.y@,
            ),
            r is Err ==> *final(self) == *old(self),
    {
        let ca = match self.cost_a(dataset) {
            Ok(c) => c,
            Err(e) => return Err(e),
        };
        let cb = match self.cost_b(dataset) {
            Ok(c) => c,
            Err(e) => return Err(e),
        };
        proof {
            lemma_cost_bounds(self.a as int, self.b as int, dataset.x@, dataset.y@);
            lemma_mul_magnitude(self.learning_rate as int, ca as int, VALUE_LIMIT as int, 10000000000000000000000000);
            lemma_mul_magnitude(self.learning_rate as int, cb as int, VALUE_LIMIT as int, RESIDUAL_BOUND as int);
            reveal_with_fuel(trained, 2);
        }
        let lr = self.learning_rate as i128;
        let next_a: i128 = self.a as i128 - floor_div(lr * ca, SCALE as i128);
        let next_b: i128 = self.b as i128 - floor_div(lr * cb, SCALE as i128);
        if next_a < -(VALUE_LIMIT as i128) || next_a > VALUE_LIMIT as i128 || next_b < -(VALUE_LIMIT as i128)
            || next_b > VALUE_LIMIT as i128 {
            return Err(RegressionError::Overflow);
        }
        self.a = next_a as i64;
        self.b = next_b as i64;
        Ok(())
    }
}

/// The product of two in-range values, that product scaled down, and the
/// estimate of a well-formed model at an in-range mileage all fit in 64
/// bits.
pub proof fn lemma_estimate_bound(a: int, b: int, x: int)
    requires
        in_range(a),
        in_range(b),
        in_range(x),
    ensures
        -4000000000000000000000000 <= a * x <= 4000000000000000000000000,
        -4000000000000000000 <= (a * x) / (SCALE as int) <= 4000000000000000000,
        -4000002000000000000 <= estimate_of(a, b, x) <= 4000002000000000000,
{
    lemma_mul_magnitude(a, x, VALUE_LIMIT as int, VALUE_LIMIT as int);
    lemma_div_is_ordered(a * x, 4000000000000000000000000, SCALE as int);
    lemma_div_is_ordered(-4000000000000000000000000, a * x, SCALE as int);
}

/// Residuals and residual-times-mileage terms are bounded on in-range
/// inputs.
pub proof fn lemma_residual_bound(a: int, b: int, x: int, y: int)
    requires
        in_range(a),
        in_range(b),
        in_range(x),
        in_range(y),
    ensures
        -RESIDUAL_BOUND <= residual(a, b, x, y) <= RESIDUAL_BOUND,
        -TERM_BOUND <= residual(a, b, x, y) * x <= TERM_BOUND,
{
    lemma_estimate_bound(a, b, x);
    lemma_mul_magnitude(residual(a, b, x, y), x, RESIDUAL_BOUND as int, VALUE_LIMIT as int);
}

/// Partial sums of the gradient terms grow by at most one term bound per
/// row.
pub proof fn lemma_sum_bounds(a: int, b: int, xs: Seq<i64>, ys: Seq<i64>, k: nat)
    requires
        in_range(a),
        in_range(b),
        k <= xs.len(),
        k <= ys.len(),
        forall|i: int| 0 <= i < xs.len() ==> in_range(#[trigger] xs[i] as int),
        forall|i: int| 0 <= i < ys.len() ==> in_range(#[trigger] ys[i] as int),
    ensures
        -(k * TERM_BOUND) <= sum_residual_x(a, b, xs, ys, k) <= k * TERM_BOUND,
        -(k * RESIDUAL_BOUND) <= sum_residual(a, b, xs, ys, k) <= k * RESIDUAL_BOUND,
    decreases k,
{
    if k > 0 {
        lemma_sum_bounds(a, b, xs, ys, (k - 1) as nat);
        lemma_residual_bound(a, b, xs[k - 1] as int, ys[k - 1] as int);
    }
}

/// Both gradients of a well-formed model on a non-empty in-range dataset
/// are bounded.
pub proof fn lemma_cost_bounds(a: int, b: int, xs: Seq<i64>, ys: Seq<i64>)
    requires
        in_range(a),
        in_range(b),
        0 < xs.len() <= MAX_ROWS,
        xs.len() == ys.len(),
        forall|i: int| 0 <= i < xs.len() ==> in_range(#[trigger] xs[i] as int),
        forall|i: int| 0 <= i < ys.len() ==> in_range(#[trigger] ys[i] as int),
    ensures
        -10000000000000000000000000 <= cost_a_of(a, b, xs, ys) <= 10000000000000000000000000,
        -RESIDUAL_BOUND <= cost_b_of(a, b, xs, ys) <= RESIDUAL_BOUND,
{
    let n = xs.len() as int;
    lemma_sum_bounds(a, b, xs, ys, xs.len());
    lemma_mean_magnitude(sum_residual_x(a, b, xs, ys, xs.len()), n, TERM_BOUND as int);
    lemma_mean_magnitude(sum_residual(a, b, xs, ys, xs.len()), n, RESIDUAL_BOUND as int);
    let m = sum_residual_x(a, b, xs, ys, xs.len()) / n;
    lemma_div_is_ordered(m, TERM_BOUND as int, SCALE as int);
    lemma_div_is_ordered(-TERM_BOUND, m, SCALE as int);
}

} // verus!
