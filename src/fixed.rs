//! Fixed-point arithmetic shared by the dataset and the model.
use vstd::arithmetic::div_mod::*;
use vstd::prelude::*;

verus! {

/// Number of stored units in one real unit.
pub const SCALE: i64 = 1000000;

/// Largest magnitude, in stored units, of a data value or a model parameter
/// (two million real units).
pub const VALUE_LIMIT: i64 = 2000000000000;

/// Largest number of rows a dataset can hold.
pub const MAX_ROWS: usize = 1048576;

/// A stored value lies in the representable range.
pub open spec fn in_range(v: int) -> bool {
    -VALUE_LIMIT <= v <= VALUE_LIMIT
}

/// Floor division of `n` by a positive `d`, on 128-bit integers.
pub fn floor_div(n: i128, d: i128) -> (r: i128)
    requires
        d > 0,
    ensures
        r == n / d,
{
    if n >= 0 {
        n / d
    } else {
        let m: i128 = -(n + 1);
        let q: i128 = m / d;
        proof {
            lemma_floor_div_negative(n as int, d as int);
        }
        -q - 1
    }
}

/// For a negative numerator, floor division is one below the negated
/// quotient of `-n - 1`.
proof fn lemma_floor_div_negative(n: int, d: int)
    requires
        n < 0,
        d > 0,
    ensures
        n / d == -((-n - 1) / d) - 1,
{
    let m = -n - 1;
    let q = m / d;
    let r = m % d;
    lemma_fundamental_div_mod(m, d);
    lemma_mod_bound(m, d);
    assert(n == (-q - 1) * d + (d - r - 1)) by (nonlinear_arith)
        requires
            m == d * q + r,
            n == -m - 1,
    ;
    lemma_fundamental_div_mod_converse(n, d, -q - 1, d - r - 1);
}

/// A product of two values bounded in magnitude is bounded by the product
/// of the bounds.
pub proof fn lemma_mul_magnitude(p: int, q: int, pb: int, qb: int)
    requires
        -pb <= p <= pb,
        -qb <= q <= qb,
    ensures
        -(pb * qb) <= p * q <= pb * qb,
{
    assert(-(pb * qb) <= p * q <= pb * qb) by (nonlinear_arith)
        requires
            -pb <= p <= pb,
            -qb <= q <= qb,
    ;
}

/// The floor of a mean of `n` values each bounded by `m` in magnitude is
/// bounded by `m` too.
pub proof fn lemma_mean_magnitude(s: int, n: int, m: int)
    requires
        n > 0,
        m >= 0,
        -(n * m) <= s <= n * m,
    ensures
        -m <= s / n <= m,
{
    lemma_div_is_ordered(s, n * m, n);
    lemma_div_is_ordered(-(n * m), s, n);
    lemma_div_by_multiple(m, n);
    assert(m * n == n * m) by (nonlinear_arith);
    assert(-(n * m) == (-m) * n) by (nonlinear_arith);
    lemma_fundamental_div_mod_converse((-m) * n, n, -m, 0);
}

} // verus!
