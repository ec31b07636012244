//! Columns and datasets of (mileage, price) pairs, and the error type of
//! the library.
use crate::fixed::{in_range, MAX_ROWS, SCALE, VALUE_LIMIT};
use vstd::arithmetic::div_mod::*;
use vstd::prelude::*;

verus! {

/// Why an operation of this library refused its input.
#[derive(Debug, Clone, Copy, PartialEq, Eq, Structural)]
pub enum RegressionError {
    /// The range of a column with no values was asked for.
    EmptyData,
    /// A dataset with no rows was given to training or to the metric.
    EmptyDataset,
    /// A column whose values are all equal cannot be rescaled.
    DegenerateRange,
    /// The coefficient of determination is undefined: all targets are equal.
    DegenerateMetric,
    /// A value lies outside `[-VALUE_LIMIT, VALUE_LIMIT]`.
    ValueOutOfRange,
    /// The dataset already holds `MAX_ROWS` rows.
    TooManyRows,
    /// A result left the representable range.
    Overflow,
}

/// `lo` and `hi` are the least and the greatest element of a non-empty `s`.
pub open spec fn is_range_of(s: Seq<i64>, lo: int, hi: int) -> bool {
    &&& s.len() > 0
    &&& forall|i: int| 0 <= i < s.len() ==> lo <= #[trigger] s[i] <= hi
    &&& exists|i: int| 0 <= i < s.len() && s[i] == lo
    &&& exists|i: int| 0 <= i < s.len() && s[i] == hi
}

/// Min-max rescaling of `v` from `[lo, hi]` onto `[0, SCALE]`.
pub open spec fn rescaled(v: int, lo: int, hi: int) -> int {
    ((v - lo) * SCALE) / (hi - lo)
}

/// One column of a dataset, with the cached bounds of its values.
#[derive(Debug)]
pub struct DatasetRow {
    pub data: Vec<i64>,
    pub min: i64,
    pub max: i64,
}

impl View for DatasetRow {
    type V = Seq<i64>;

    open spec fn view(&self) -> Seq<i64> {
        self.data@
    }
}

impl DatasetRow {
    /// Values in range, not too many of them, and ordered cached bounds.
    pub open spec fn wf(&self) -> bool {
        &&& self@.len() <= MAX_ROWS
        &&& forall|i: int| 0 <= i < self@.len() ==> in_range(#[trigger] self@[i] as int)
        &&& in_range(self.min as int)
        &&& in_range(self.max as int)
        &&& self.min <= self.max
    }

    /// The cached bounds are those of the current values.
    pub open spec fn range_set(&self) -> bool {
        is_range_of(self@, self.min as int, self.max as int)
    }

    pub fn new() -> (r: Self)
        ensures
            r@ == Seq::<i64>::empty(),
            r.min == 0,
            r.max == 0,
            r.wf(),
    {
        DatasetRow { data: Vec::new(), min: 0, max: 0 }
    }

    /// Appends `value`; the cached bounds are left as they were.
    pub fn push(&mut self, value: i64) -> (r: Result<(), RegressionError>)
        requires
            old(self).wf(),
        ensures
            final(self).wf(),
            final(self).min == old(self).min,
            final(self).max == old(self).max,
            r == Err::<(), _>(RegressionError::ValueOutOfRange) <==> !in_range(value as int),
            r == Err::<(), _>(RegressionError::TooManyRows) <==> (in_range(value as int)
                && old(self)@.len() == MAX_ROWS),
            r is Ok <==> (in_range(value as int) && old(self)@.len() < MAX_ROWS),
            r is Ok ==> final(self)@ == old(self)@.push(value),
            r is Err ==> final(self)@ == old(self)@,
    {
        if value < -VALUE_LIMIT || value > VALUE_LIMIT {
            return Err(RegressionError::ValueOutOfRange);
        }
        if self.data.len() >= MAX_ROWS {
            return Err(RegressionError::TooManyRows);
        }
        self.data.push(value);
        Ok(())
    }

    pub fn len(&self) -> (r: usize)
        ensures
            r == self@.len(),
    {
        self.data.len()
    }

    /// Caches the least and the greatest value, in one pass.
    pub fn set_range(&mut self) -> (r: Result<(), RegressionError>)
        requires
            old(self).wf(),
        ensures
            final(self).wf(),
            final(self)@ == old(self)@,
            r == Err::<(), _>(RegressionError::EmptyData) <==> old(self)@.len() == 0,
            r is Ok <==> old(self)@.len() > 0,
            r is Ok ==> final(self).range_set(),
            r is Err ==> *final(self) == *old(self),
    {
        let n = self.data.len();
        if n == 0 {
            return Err(RegressionError::EmptyData);
        }
        let mut lo: i64 = self.data[0];
        let mut hi: i64 = self.data[0];
        let mut i: usize = 1;
        while i < n
            invariant
                n == self@.len(),
                1 <= i <= n,
                self.wf(),
                forall|j: int| 0 <= j < i ==> lo <= #[trigger] self@[j] <= hi,
                exists|j: int| 0 <= j < i && self@[j] == lo,
                exists|j: int| 0 <= j < i && self@[j] == hi,
            decreases n - i,
        {
            let v = self.data[i];
            if v < lo {
                lo = v;
            }
            if v > hi {
                hi = v;
            }
            i = i + 1;
        }
        assert(in_range(self@[0] as int));
        self.min = lo;
        self.max = hi;
        Ok(())
    }
    /// Rescales every value from `[min, max]` onto `[0, SCALE]` (real `[0, 1]`).
    /// The cached bounds are kept, so parameters fitted to the rescaled
    /// values can be mapped back.
    pub fn normalize(&mut self) -> (r: Result<(), RegressionError>)
        requires
            old(self).wf(),
            old(self).range_set(),
        ensures
            final(self).wf(),
            final(self).min == old(self).min,
            final(self).max == old(self).max,
            r == Err::<(), _>(RegressionError::DegenerateRange) <==> old(self).min == old(self).max,
            r is Ok <==> old(self).min < old(self).max,
            r is Err ==> final(self)@ == old(self)@,
            r is Ok ==> final(self)@.len() == old(self)@.len(),
            r is Ok ==> forall|i: int|
                0 <= i < old(self)@.len() ==> #[trigger] final(self)@[i] == rescaled(
                    old(self)@[i] as int,
                    old(self).min as int,
                    old(self).max as int,
                ),
            r is Ok ==> forall|i: int|
                0 <= i < old(self)@.len() ==> 0 <= #[trigger] final(self)@[i] <= SCALE,
            r is Ok ==> forall|i: int|
                0 <= i < old(self)@.len() && old(self)@[i] == old(self).min ==> #[trigger] final(self)@[i] == 0,
            r is Ok ==> forall|i: int|
                0 <= i < old(self)@.len() && old(self)@[i] == old(self).max ==> #[trigger] final(self)@[i] == SCALE,
    {
        let lo = self.min;
        let hi = self.max;
        if lo == hi {
            return Err(RegressionError::DegenerateRange);
        }
        let range: i128 = hi as i128 - lo as i128;
        let ghost orig = self.data@;
        let n = self.data.len();
        let mut i: usize = 0;
        while i < n
            invariant
                n == orig.len(),
                self.data@.len() == n,
                0 <= i <= n,
                lo == self.min,
                hi == self.max,
                range == hi - lo,
                lo < hi,
                n <= MAX_ROWS,
                in_range(lo as int),
                in_range(hi as int),
                forall|j: int| 0 <= j < n ==> lo <= #[trigger] orig[j] <= hi,
                forall|j: int| 0 <= j < i ==> #[trigger] self.data@[j] == rescaled(orig[j] as int, lo as int, hi as int),
                forall|j: int| 0 <= j < i ==> 0 <= #[trigger] self.data@[j] <= SCALE,
                forall|j: int| i <= j < n ==> #[trigger] self.data@[j] == orig[j],
            decreases n - i,
        {
            let v = self.data[i];
            assert(orig[i as int] == v);
            proof {
                lemma_rescaled_bounds(v as int, lo as int, hi as int);
            }
            let num: i128 = (v as i128 - lo as i128) * (SCALE as i128);
            let q: i128 = num / range;
            self.data.set(i, q as i64);
            i = i + 1;
        }
        proof {
            assert forall|j: int| 0 <= j < n && orig[j] == lo implies self.data@[j] == 0 by {
                lemma_rescaled_bounds(orig[j] as int, lo as int, hi as int);
            }
            assert forall|j: int| 0 <= j < n && orig[j] == hi implies self.data@[j] == SCALE by {
                lemma_rescaled_bounds(orig[j] as int, lo as int, hi as int);
            }
        }
        Ok(())
    }
}

/// Rescaling maps `[lo, hi]` onto `[0, SCALE]`, `lo` to 0 and `hi` to `SCALE`.
pub proof fn lemma_rescaled_bounds(v: int, lo: int, hi: int)
    requires
        lo <= v <= hi,
        lo < hi,
    ensures
        0 <= rescaled(v, lo, hi) <= SCALE,
        v == lo ==> rescaled(v, lo, hi) == 0,
        v == hi ==> rescaled(v, lo, hi) == SCALE,
        0 <= (v - lo) * SCALE <= (hi - lo) * SCALE,
{
    let d = hi - lo;
    assert(0 <= (v - lo) * SCALE <= d * SCALE) by (nonlinear_arith)
        requires
            0 <= v - lo <= d,
    ;
    lemma_div_is_ordered(0, (v - lo) * SCALE, d);
    lemma_div_is_ordered((v - lo) * SCALE, d * SCALE, d);
    lemma_div_by_multiple(SCALE as int, d);
    assert(d * SCALE == SCALE * d) by (nonlinear_arith);
    lemma_div_of0(d);
    if v == hi {
        assert((v - lo) * SCALE == SCALE * d);
    }
}

/// The first components of a sequence of pairs.
pub open spec fn firsts(rows: Seq<(i64, i64)>) -> Seq<i64> {
    rows.map_values(|r: (i64, i64)| r.0)
}

/// The second components of a sequence of pairs.
pub open spec fn seconds(rows: Seq<(i64, i64)>) -> Seq<i64> {
    rows.map_values(|r: (i64, i64)| r.1)
}

/// Both components of every pair lie in the representable range.
pub open spec fn rows_in_range(rows: Seq<(i64, i64)>) -> bool {
    forall|i: int| 0 <= i < rows.len() ==> in_range((#[trigger] rows[i]).0 as int) && in_range(rows[i].1 as int)
}

/// Mileages (`x`) and prices (`y`), kept as two columns of equal length.
#[derive(Debug)]
pub struct Dataset {
    pub x: DatasetRow,
    pub y: DatasetRow,
}

impl Dataset {
    pub open spec fn wf(&self) -> bool {
        &&& self.x.wf()
        &&& self.y.wf()
        &&& self.x@.len() == self.y@.len()
    }

    /// Number of rows.
    pub open spec fn size(&self) -> nat {
        self.x@.len()
    }

    pub fn new() -> (r: Self)
        ensures
            r.wf(),
            r.size() == 0,
            r.x.min == 0 && r.x.max == 0,
            r.y.min == 0 && r.y.max == 0,
    {
        Dataset { x: DatasetRow::new(), y: DatasetRow::new() }
    }

    /// Appends one (x, y) pair; the cached bounds are left as they were.
    pub fn push(&mut self, row: (i64, i64)) -> (r: Result<(), RegressionError>)
        requires
            old(self).wf(),
        ensures
            final(self).wf(),
            r == Err::<(), _>(RegressionError::ValueOutOfRange) <==> !(in_range(row.0 as int)
                && in_range(row.1 as int)),
            r == Err::<(), _>(RegressionError::TooManyRows) <==> (in_range(row.0 as int)
                && in_range(row.1 as int) && old(self).size() == MAX_ROWS),
            r is Ok <==> (in_range(row.0 as int) && in_range(row.1 as int) && old(self).size() < MAX_ROWS),
            r is Ok ==> final(self).x@ == old(self).x@.push(row.0),
            r is Ok ==> final(self).y@ == old(self).y@.push(row.1),
            r is Ok ==> final(self).x.min == old(self).x.min && final(self).x.max == old(self).x.max,
            r is Ok ==> final(self).y.min == old(self).y.min && final(self).y.max == old(self).y.max,
            r is Err ==> *final(self) == *old(self),
    {
        if row.0 < -VALUE_LIMIT || row.0 > VALUE_LIMIT || row.1 < -VALUE_LIMIT || row.1 > VALUE_LIMIT {
            return Err(RegressionError::ValueOutOfRange);
        }
        if self.x.len() >= MAX_ROWS {
            return Err(RegressionError::TooManyRows);
        }
        let rx = self.x.push(row.0);
        let ry = self.y.push(row.1);
        assert(rx is Ok && ry is Ok);
        Ok(())
    }

    pub fn len(&self) -> (r: usize)
        requires
            self.wf(),
        ensures
            r == self.size(),
    {
        self.x.len()
    }

    /// Appends every row read from a source, then caches the bounds of both
    /// columns. Nothing changes when a row is refused.
    pub fn load(&mut self, rows: &Vec<(i64, i64)>) -> (r: Result<(), RegressionError>)
        requires
            old(self).wf(),
        ensures
            final(self).wf(),
            r == Err::<(), _>(RegressionError::ValueOutOfRange) <==> !rows_in_range(rows@),
            r == Err::<(), _>(RegressionError::TooManyRows) <==> (rows_in_range(rows@)
                && old(self).size() + rows@.len() > MAX_ROWS),
            r == Err::<(), _>(RegressionError::EmptyData) <==> (rows_in_range(rows@)
                && old(self).size() + rows@.len() == 0),
            r is Ok <==> (rows_in_range(rows@) && 0 < old(self).size() + rows@.len() <= MAX_ROWS),
            r is Ok ==> final(self).x@ == old(self).x@ + firsts(rows@),
            r is Ok ==> final(self).y@ == old(self).y@ + seconds(rows@),
            r is Ok ==> final(self).x.range_set() && final(self).y.range_set(),
            r is Err ==> *final(self) == *old(self),
    {
        let n = rows.len();
        let mut i: usize = 0;
        while i < n
            invariant
                n == rows@.len(),
                0 <= i <= n,
                old(self).wf(),
                self == old(self),
                forall|j: int| 0 <= j < i ==> in_range((#[trigger] rows@[j]).0 as int) && in_range(rows@[j].1 as int),
            decreases n - i,
        {
            let row = rows[i];
            assert(row == rows@[i as int]);
            if row.0 < -VALUE_LIMIT || row.0 > VALUE_LIMIT || row.1 < -VALUE_LIMIT || row.1 > VALUE_LIMIT {
                return Err(RegressionError::ValueOutOfRange);
            }
            assert(in_range(rows@[i as int].0 as int) && in_range(rows@[i as int].1 as int));
            i = i + 1;
        }
        let have = self.x.len();
        if n > MAX_ROWS - have {
            return Err(RegressionError::TooManyRows);
        }
        if have == 0 && n == 0 {
            return Err(RegressionError::EmptyData);
        }
        let ghost x0 = self.x@;
        let ghost y0 = self.y@;
        let mut k: usize = 0;
        while k < n
            invariant
                n == rows@.len(),
                0 <= k <= n,
                have + n <= MAX_ROWS,
                rows_in_range(rows@),
                self.wf(),
                self.x@ == x0 + firsts(rows@).take(k as int),
                self.y@ == y0 + seconds(rows@).take(k as int),
                x0.len() == have,
            decreases n - k,
        {
            let row = rows[k];
            let rx = self.x.push(row.0);
            let ry = self.y.push(row.1);
            assert(rx is Ok && ry is Ok);
            assert(firsts(rows@).take(k + 1) == firsts(rows@).take(k as int).push(row.0));
            assert(seconds(rows@).take(k + 1) == seconds(rows@).take(k as int).push(row.1));
            k = k + 1;
        }
        assert(firsts(rows@).take(n as int) == firsts(rows@));
        assert(seconds(rows@).take(n as int) == seconds(rows@));
        let rx = self.x.set_range();
        let ry = self.y.set_range();
        assert(rx is Ok && ry is Ok);
        Ok(())
    }

    /// Rescales both columns onto `[0, SCALE]`, each with its own bounds.
    /// Nothing changes when either column is constant.
    pub fn normalize(&mut self) -> (r: Result<(), RegressionError>)
        requires
            old(self).wf(),
            old(self).x.range_set(),
            old(self).y.range_set(),
        ensures
            final(self).wf(),
            r == Err::<(), _>(RegressionError::DegenerateRange) <==> (old(self).x.min == old(self).x.max
                || old(self).y.min == old(self).y.max),
            r is Ok <==> (old(self).x.min < old(self).x.max && old(self).y.min < old(self).y.max),
            r is Err ==> *final(self) == *old(self),
            final(self).x.min == old(self).x.min && final(self).x.max == old(self).x.max,
            final(self).y.min == old(self).y.min && final(self).y.max == old(self).y.max,
            final(self).size() == old(self).size(),
            r is Ok ==> forall|i: int|
                0 <= i < old(self).size() ==> #[trigger] final(self).x@[i] == rescaled(
                    old(self).x@[i] as int,
                    old(self).x.min as int,
                    old(self).x.max as int,
                ) && 0 <= final(self).x@[i] <= SCALE,
            r is Ok ==> forall|i: int|
                0 <= i < old(self).size() ==> #[trigger] final(self).y@[i] == rescaled(
                    old(self).y@[i] as int,
                    old(self).y.min as int,
                    old(self).y.max as int,
                ) && 0 <= final(self).y@[i] <= SCALE,
            r is Ok ==> forall|i: int|
                0 <= i < old(self).size() && old(self).x@[i] == old(self).x.min ==> #[trigger] final(self).x@[i] == 0,
            r is Ok ==> forall|i: int|
                0 <= i < old(self).size() && old(self).x@[i] == old(self).x.max ==> #[trigger] final(self).x@[i] == SCALE,
            r is Ok ==> forall|i: int|
                0 <= i < old(self).size() && old(self).y@[i] == old(self).y.min ==> #[trigger] final(self).y@[i] == 0,
            r is Ok ==> forall|i: int|
                0 <= i < old(self).size() && old(self).y@[i] == old(self).y.max ==> #[trigger] final(self).y@[i] == SCALE,
    {
        if self.x.min == self.x.max || self.y.min == self.y.max {
            return Err(RegressionError::DegenerateRange);
        }
        let rx = self.x.normalize();
        let ry = self.y.normalize();
        assert(rx is Ok && ry is Ok);
        Ok(())
    }

    /// The (x, y) pairs in insertion order.
    pub fn pairs(&self) -> (r: Vec<(i64, i64)>)
        requires
            self.wf(),
        ensures
            r@.len() == self.size(),
            forall|i: int| 0 <= i < r@.len() ==> #[trigger] r@[i] == (self.x@[i], self.y@[i]),
    {
        let n = self.x.data.len();
        let mut out: Vec<(i64, i64)> = Vec::new();
        let mut i: usize = 0;
        while i < n
            invariant
                self.wf(),
                n == self.size(),
                0 <= i <= n,
                out@.len() == i,
                forall|j: int| 0 <= j < i ==> #[trigger] out@[j] == (self.x@[j], self.y@[j]),
            decreases n - i,
        {
            out.push((self.x.data[i], self.y.data[i]));
            i = i + 1;
        }
        out
    }
}

} // verus!
