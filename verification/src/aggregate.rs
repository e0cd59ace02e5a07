//! Column-wise aggregation: sum, arithmetic mean, minimum, and maximum over
//! the numeric values of one column.
//!
//! Cells that do not parse as numbers are skipped silently; a column with no
//! parsable value yields an absent result, so callers can tell "no data"
//! from "data sums to zero".

use vstd::prelude::*;
use vstd::arithmetic::div_mod::{lemma_fundamental_div_mod, lemma_mod_division_less_than_divisor};
use crate::table::{CellV, Table};
use crate::numbers::{decimal_units, parse_decimal_chars, spec_units_of, Fixed, UNIT_BOUND};
use crate::text::string_to_chars;

verus! {

/// The numeric values of column `i`'s parsable cells, in row order, in
/// fixed-point units.
pub open spec fn column_units(rows: Seq<Seq<CellV>>, i: int) -> Seq<int>
    decreases rows.len(),
{
    if rows.len() == 0 {
        Seq::empty()
    } else {
        let rest = column_units(rows.drop_last(), i);
        match spec_units_of(rows.last()[i].content) {
            Some(u) => rest.push(u),
            None => rest,
        }
    }
}

pub open spec fn seq_sum(s: Seq<int>) -> int
    decreases s.len(),
{
    if s.len() == 0 {
        0
    } else {
        seq_sum(s.drop_last()) + s.last()
    }
}

/// The least element of a nonempty sequence.
pub open spec fn seq_min(s: Seq<int>) -> int
    decreases s.len(),
{
    if s.len() <= 1 {
        s[0]
    } else {
        let m = seq_min(s.drop_last());
        if s.last() < m {
            s.last()
        } else {
            m
        }
    }
}

/// The greatest element of a nonempty sequence.
pub open spec fn seq_max(s: Seq<int>) -> int
    decreases s.len(),
{
    if s.len() <= 1 {
        s[0]
    } else {
        let m = seq_max(s.drop_last());
        if s.last() > m {
            s.last()
        } else {
            m
        }
    }
}

/// Integer division rounding toward zero, the mean's rounding direction.
pub open spec fn div_toward_zero(a: int, b: int) -> int {
    if a >= 0 {
        a / b
    } else {
        -((-a) / b)
    }
}

/// The closed set of column reductions.
#[derive(Clone, Copy, Debug, PartialEq, Eq, Structural)]
pub enum AggregateOp {
    /// The sum of the parsable values.
    Sum,
    /// The arithmetic mean of the parsable values, rounded toward zero at
    /// the fixed-point precision.
    Average,
    /// The least parsable value.
    Min,
    /// The greatest parsable value.
    Max,
}

/// What an aggregate evaluates to over the values `us`, which must be
/// nonempty.
pub open spec fn spec_aggregate(op: AggregateOp, us: Seq<int>) -> int {
    match op {
        AggregateOp::Sum => seq_sum(us),
        AggregateOp::Average => div_toward_zero(seq_sum(us), us.len() as int),
        AggregateOp::Min => seq_min(us),
        AggregateOp::Max => seq_max(us),
    }
}

impl Table {
    /// Reduces the numeric values of column `column_index` with `op`.
    /// Unparsable cells are skipped; the result is absent exactly when no
    /// cell of the column parses as a number.
    #[verifier::loop_isolation(false)]
    #[verifier::rlimit(100)]
    pub fn aggregate_column(&self, column_index: usize, op: AggregateOp) -> (r: Option<Fixed>)
        requires
            self.wf(),
            column_index < self@.columns.len(),
        ensures
            r is Some <==> column_units(self@.rows, column_index as int).len() > 0,
            r matches Some(f) ==> f.units == spec_aggregate(
                op,
                column_units(self@.rows, column_index as int),
            ),
    {
        let ghost col = column_index as int;
        let mut count: usize = 0;
        let mut sum: i128 = 0;
        let mut mn: i128 = 0;
        let mut mx: i128 = 0;
        let mut k: usize = 0;
        while k < self.rows.len()
            invariant
                k <= self.rows@.len(),
                count == column_units(self@.rows.take(k as int), col).len(),
                count <= k,
                sum == seq_sum(column_units(self@.rows.take(k as int), col)),
                -(count as int) * (UNIT_BOUND - 1) <= sum <= (count as int) * (UNIT_BOUND - 1),
                count > 0 ==> mn == seq_min(column_units(self@.rows.take(k as int), col)),
                count > 0 ==> mx == seq_max(column_units(self@.rows.take(k as int), col)),
                count > 0 ==> -UNIT_BOUND < mn < UNIT_BOUND,
                count > 0 ==> -UNIT_BOUND < mx < UNIT_BOUND,
            decreases self.rows@.len() - k,
        {
            proof {
                assert(self@.rows[k as int].len() == self@.columns.len());
                assert(crate::table::row_view(self.rows@[k as int]@).len()
                    == self.rows@[k as int]@.len());
            }
            let cell = &self.rows[k][column_index];
            let chars = string_to_chars(cell.content.as_str());
            let parsed = parse_decimal_chars(&chars);
            let ghost prev = column_units(self@.rows.take(k as int), col);
            proof {
                assert(self@.rows[k as int][col].content == cell.content@);
            }
            match parsed {
                Some(dec) => {
                    let u = decimal_units(&dec);
                    sum = sum + u;
                    if count == 0 {
                        mn = u;
                        mx = u;
                    } else {
                        if u < mn {
                            mn = u;
                        }
                        if u > mx {
                            mx = u;
                        }
                    }
                    count = count + 1;
                },
                None => {},
            }
            k = k + 1;
            proof {
                let taken = self@.rows.take(k as int);
                assert(taken.drop_last() =~= self@.rows.take(k - 1));
                assert(taken.last() == self@.rows[k - 1]);
                let cur = column_units(taken, col);
                match spec_units_of(self@.rows[k - 1][col].content) {
                    Some(u) => {
                        assert(cur == prev.push(u));
                        assert(cur.drop_last() =~= prev);
                        if prev.len() > 0 {
                            assert(seq_min(cur) == (if u < seq_min(prev) {
                                u
                            } else {
                                seq_min(prev)
                            }));
                        }
                    },
                    None => {
                        assert(cur == prev);
                    },
                }
            }
        }
        proof {
            assert(self@.rows.take(self@.rows.len() as int) =~= self@.rows);
        }
        if count == 0 {
            return None;
        }
        match op {
            AggregateOp::Sum => Some(Fixed { units: sum }),
            AggregateOp::Min => Some(Fixed { units: mn }),
            AggregateOp::Max => Some(Fixed { units: mx }),
            AggregateOp::Average => {
                let units: i128 = if sum >= 0 {
                    let q = (sum as u128) / (count as u128);
                    proof {
                        assert(q as int == sum as int / count as int);
                    }
                    q as i128
                } else {
                    let mag = (-sum) as u128;
                    let q = mag / (count as u128);
                    proof {
                        assert(q as int == (-(sum as int)) / (count as int));
                    }
                    -(q as i128)
                };
                Some(Fixed { units })
            },
        }
    }

    /// The sum of the column's numeric values; absent when none parses.
    pub fn sum_column(&self, column_index: usize) -> (r: Option<Fixed>)
        requires
            self.wf(),
            column_index < self@.columns.len(),
        ensures
            r is Some <==> column_units(self@.rows, column_index as int).len() > 0,
            r matches Some(f) ==> f.units == seq_sum(column_units(self@.rows, column_index as int)),
    {
        self.aggregate_column(column_index, AggregateOp::Sum)
    }

    /// The arithmetic mean of the column's numeric values, rounded toward
    /// zero at the fixed-point precision; absent when none parses.
    pub fn average_column(&self, column_index: usize) -> (r: Option<Fixed>)
        requires
            self.wf(),
            column_index < self@.columns.len(),
        ensures
            r is Some <==> column_units(self@.rows, column_index as int).len() > 0,
            r matches Some(f) ==> f.units == div_toward_zero(
                seq_sum(column_units(self@.rows, column_index as int)),
                column_units(self@.rows, column_index as int).len() as int,
            ),
    {
        self.aggregate_column(column_index, AggregateOp::Average)
    }

    /// The least of the column's numeric values; absent when none parses.
    pub fn min_column(&self, column_index: usize) -> (r: Option<Fixed>)
        requires
            self.wf(),
            column_index < self@.columns.len(),
        ensures
            r is Some <==> column_units(self@.rows, column_index as int).len() > 0,
            r matches Some(f) ==> f.units == seq_min(column_units(self@.rows, column_index as int)),
    {
        self.aggregate_column(column_index, AggregateOp::Min)
    }

    /// The greatest of the column's numeric values; absent when none parses.
    pub fn max_column(&self, column_index: usize) -> (r: Option<Fixed>)
        requires
            self.wf(),
            column_index < self@.columns.len(),
        ensures
            r is Some <==> column_units(self@.rows, column_index as int).len() > 0,
            r matches Some(f) ==> f.units == seq_max(column_units(self@.rows, column_index as int)),
    {
        self.aggregate_column(column_index, AggregateOp::Max)
    }
}

/// Law: over any table's column, the sum and the average are absent
/// together, exactly when no cell parses; when present, the sum equals the
/// average times the number of parsable values to within one fixed-point
/// unit per value (the mean's rounding remainder).
pub proof fn lemma_sum_average_consistent(
    rows: Seq<Seq<CellV>>,
    i: int,
    sum: Option<Fixed>,
    avg: Option<Fixed>,
)
    requires
        (sum is Some) <==> column_units(rows, i).len() > 0,
        (avg is Some) <==> column_units(rows, i).len() > 0,
        sum matches Some(f) ==> f.units == seq_sum(column_units(rows, i)),
        avg matches Some(f) ==> f.units == div_toward_zero(
            seq_sum(column_units(rows, i)),
            column_units(rows, i).len() as int,
        ),
    ensures
        (sum is Some) <==> (avg is Some),
        (sum is Some && avg is Some) ==> {
            let n = column_units(rows, i).len() as int;
            let d = sum.unwrap().units - avg.unwrap().units * n;
            -n < d < n
        },
{
    if sum is Some {
        let us = column_units(rows, i);
        let n = us.len() as int;
        let total = seq_sum(us);
        if total >= 0 {
            let q = total / n;
            lemma_fundamental_div_mod(total, n);
            lemma_mod_division_less_than_divisor(total, n);
            assert(total == q * n + total % n);
            assert(0 <= total % n < n);
            assert(avg.unwrap().units == q);
            assert(sum.unwrap().units - avg.unwrap().units * n == total % n);
        } else {
            let m = -total;
            let q = m / n;
            lemma_fundamental_div_mod(m, n);
            lemma_mod_division_less_than_divisor(m, n);
            assert(m == q * n + m % n);
            assert(0 <= m % n < n);
            assert(avg.unwrap().units == -q);
            assert((-q) * n == -(q * n)) by (nonlinear_arith);
            assert(sum.unwrap().units - avg.unwrap().units * n == total + q * n);
            assert(total + q * n == -(m % n));
        }
    }
}

proof fn lemma_seq_min_le_max(s: Seq<int>)
    requires
        s.len() > 0,
    ensures
        seq_min(s) <= seq_max(s),
    decreases s.len(),
{
    if s.len() > 1 {
        lemma_seq_min_le_max(s.drop_last());
    }
}

/// Law: over any table's column, the minimum and the maximum are absent
/// together, exactly when no cell parses; when present, the minimum is at
/// most the maximum.
pub proof fn lemma_min_le_max(
    rows: Seq<Seq<CellV>>,
    i: int,
    mn: Option<Fixed>,
    mx: Option<Fixed>,
)
    requires
        (mn is Some) <==> column_units(rows, i).len() > 0,
        (mx is Some) <==> column_units(rows, i).len() > 0,
        mn matches Some(f) ==> f.units == seq_min(column_units(rows, i)),
        mx matches Some(f) ==> f.units == seq_max(column_units(rows, i)),
    ensures
        (mn is Some) <==> (mx is Some),
        (mn is Some && mx is Some) ==> mn.unwrap().units <= mx.unwrap().units,
{
    if mn is Some {
        lemma_seq_min_le_max(column_units(rows, i));
    }
}

} // verus!
