//! Grouping with subtotals: partitioning the rows into maximal consecutive
//! runs sharing a value in the grouping column, and appending after each run
//! a synthetic subtotal row.
//!
//! The subtotal row holds a marker label in the grouping column; every other
//! column holds the exact numeric sum of the run when every cell of the run
//! parses as a number there, and is empty otherwise.

use vstd::prelude::*;
use crate::table::{Cell, CellStyle, CellV, Table, duplicate_row, row_view, rows_view};
use crate::numbers::{
    decimal_units, fixed_chars, parse_decimal_chars, parts_units, spec_fixed_chars,
    spec_parse_decimal, UNIT_BOUND,
};
use crate::text::chars_to_string;

verus! {

/// The style subtotal cells carry: the default cell style.
pub open spec fn default_style() -> CellStyle {
    CellStyle {
        bold: false,
        italic: false,
        underline: false,
        padding: 1,
        decimal_places: None,
        thousand_separator: false,
    }
}

/// Whether every cell of column `j` in the run parses as a number.
pub open spec fn all_parse(run: Seq<Seq<CellV>>, j: int) -> bool {
    forall|k: int| 0 <= k < run.len() ==> spec_parse_decimal((#[trigger] run[k])[j].content) is Some
}

/// The numeric value of a cell, or zero when it does not parse.
pub open spec fn cell_units_or_zero(c: CellV) -> int {
    match spec_parse_decimal(c.content) {
        Some(p) => parts_units(p),
        None => 0,
    }
}

/// The sum of column `j`'s numeric values over the run, in fixed-point
/// units.
pub open spec fn col_sum(run: Seq<Seq<CellV>>, j: int) -> int
    decreases run.len(),
{
    if run.len() == 0 {
        0
    } else {
        col_sum(run.drop_last(), j) + cell_units_or_zero(run.last()[j])
    }
}

/// One cell of a subtotal row: the marker label in the grouping column, the
/// run's exact column sum where every cell parses, an empty cell otherwise.
pub open spec fn spec_subtotal_cell(run: Seq<Seq<CellV>>, j: int, col: int) -> CellV {
    if j == col {
        CellV { content: "Subtotal"@, style: default_style() }
    } else if all_parse(run, j) {
        CellV { content: spec_fixed_chars(col_sum(run, j)), style: default_style() }
    } else {
        CellV { content: Seq::empty(), style: default_style() }
    }
}

/// The subtotal row appended after a run.
pub open spec fn spec_subtotal_row(run: Seq<Seq<CellV>>, ncols: int, col: int) -> Seq<CellV> {
    Seq::new(ncols as nat, |j: int| spec_subtotal_cell(run, j, col))
}

/// The length of the first maximal run of rows sharing a value in column
/// `col`.
pub open spec fn first_run_len(rows: Seq<Seq<CellV>>, col: int) -> int
    decreases rows.len(),
{
    if rows.len() <= 1 {
        rows.len() as int
    } else if rows[1][col].content == rows[0][col].content {
        1 + first_run_len(rows.skip(1), col)
    } else {
        1
    }
}

proof fn lemma_first_run_len(rows: Seq<Seq<CellV>>, col: int)
    requires
        rows.len() > 0,
    ensures
        1 <= first_run_len(rows, col) <= rows.len(),
    decreases rows.len(),
{
    if rows.len() > 1 && rows[1][col].content == rows[0][col].content {
        lemma_first_run_len(rows.skip(1), col);
    }
}

/// The first run is exactly the rows up to the first change of key.
proof fn lemma_first_run_characterization(rows: Seq<Seq<CellV>>, col: int, n: int)
    requires
        1 <= n <= rows.len(),
        forall|i: int| 1 <= i < n ==> (#[trigger] rows[i])[col].content == rows[0][col].content,
        n < rows.len() ==> rows[n][col].content != rows[0][col].content,
    ensures
        first_run_len(rows, col) == n,
    decreases rows.len(),
{
    if n == 1 {
        if rows.len() > 1 {
            assert(rows[1][col].content != rows[0][col].content);
        }
    } else {
        assert(rows[1][col].content == rows[0][col].content);
        let tail = rows.skip(1);
        assert forall|i: int| 1 <= i < n - 1 implies (#[trigger] tail[i])[col].content
            == tail[0][col].content by {
            assert(tail[i] == rows[i + 1]);
            assert(tail[0] == rows[1]);
        }
        if n - 1 < tail.len() {
            assert(tail[n - 1] == rows[n]);
            assert(tail[0] == rows[1]);
        }
        lemma_first_run_characterization(tail, col, n - 1);
    }
}

/// The grouped row sequence: each maximal run of equal keys in column `col`,
/// followed by its subtotal row.
pub open spec fn spec_grouped(rows: Seq<Seq<CellV>>, ncols: int, col: int) -> Seq<Seq<CellV>>
    decreases rows.len(),
    via spec_grouped_decreases
{
    if rows.len() == 0 {
        Seq::empty()
    } else {
        let n = first_run_len(rows, col);
        rows.take(n) + seq![spec_subtotal_row(rows.take(n), ncols, col)] + spec_grouped(
            rows.skip(n),
            ncols,
            col,
        )
    }
}

#[via_fn]
proof fn spec_grouped_decreases(rows: Seq<Seq<CellV>>, ncols: int, col: int) {
    if rows.len() > 0 {
        lemma_first_run_len(rows, col);
    }
}

/// Whether the run starting at `first` still continues at `e`: the cell
/// contents in column `col` are equal.
fn run_continues(rows: &Vec<Vec<Cell>>, first: usize, e: usize, col: usize) -> (r: bool)
    requires
        first < rows@.len(),
        forall|q: int| 0 <= q < rows@.len() ==> col < (#[trigger] rows@[q])@.len(),
    ensures
        r == (e < rows@.len() && rows_view(rows@)[e as int][col as int].content == rows_view(
            rows@,
        )[first as int][col as int].content),
{
    if e < rows.len() {
        let same = rows[e][col].content == rows[first][col].content;
        proof {
            assert(rows_view(rows@)[e as int][col as int].content == rows@[e as int]@[col as int].content@);
            assert(rows_view(rows@)[first as int][col as int].content == rows@[first as int]@[col as int].content@);
        }
        same
    } else {
        false
    }
}

impl Table {
    /// The subtotal row for a run of rows: the marker label in the grouping
    /// column; in every other column, the run's exact sum when every cell of
    /// the run parses as a number, an empty cell otherwise.
    #[verifier::loop_isolation(false)]
    #[verifier::rlimit(100)]
    pub fn calculate_subtotal(&self, group: &Vec<Vec<Cell>>, column_index: usize) -> (r: Vec<Cell>)
        requires
            self.wf(),
            column_index < self@.columns.len(),
            forall|q: int| 0 <= q < group@.len() ==> (#[trigger] group@[q])@.len()
                == self@.columns.len(),
        ensures
            row_view(r@) == spec_subtotal_row(
                rows_view(group@),
                self@.columns.len() as int,
                column_index as int,
            ),
            r@.len() == self@.columns.len(),
    {
        let ghost run = rows_view(group@);
        let ghost ncols = self@.columns.len() as int;
        let mut r: Vec<Cell> = Vec::new();
        let mut j: usize = 0;
        while j < self.columns.len()
            invariant
                j <= self@.columns.len(),
                row_view(r@) == spec_subtotal_row(run, ncols, column_index as int).take(j as int),
            decreases self@.columns.len() - j,
        {
            let ghost r_prev = row_view(r@);
            if j == column_index {
                r.push(Cell::new("Subtotal"));
            } else {
                // Does every cell of the run parse as a number in column j?
                let mut all_ok = true;
                let mut k: usize = 0;
                while k < group.len()
                    invariant
                        k <= group@.len(),
                        j < self@.columns.len(),
                        all_ok == all_parse(run.take(k as int), j as int),
                    decreases group@.len() - k,
                {
                    proof {
                        assert(run[k as int].len() == group@[k as int]@.len());
                    }
                    let cell = &group[k][j];
                    let chars = crate::text::string_to_chars(cell.content.as_str());
                    let parsed = parse_decimal_chars(&chars);
                    let ghost cell_ok = spec_parse_decimal(run[k as int][j as int].content) is Some;
                    let ghost prev_take = run.take(k as int);
                    proof {
                        assert(run[k as int][j as int].content == group@[k as int]@[j as int].content@);
                        assert(cell_ok == (parsed is Some));
                    }
                    if parsed.is_none() {
                        all_ok = false;
                    }
                    k = k + 1;
                    proof {
                        let cur = run.take(k as int);
                        assert(cur =~= prev_take.push(run[k - 1]));
                        assert(cur[k - 1] == run[k - 1]);
                        if all_parse(prev_take, j as int) && cell_ok {
                            assert forall|q: int| 0 <= q < cur.len() implies spec_parse_decimal(
                                (#[trigger] cur[q])[j as int].content,
                            ) is Some by {
                                if q < k - 1 {
                                    assert(cur[q] == prev_take[q]);
                                    assert(spec_parse_decimal(prev_take[q][j as int].content) is Some);
                                }
                            }
                            assert(all_parse(cur, j as int));
                        } else if !cell_ok {
                            assert(!(spec_parse_decimal(cur[k - 1][j as int].content) is Some));
                            assert(!all_parse(cur, j as int));
                        } else {
                            let q0 = choose|q0: int|
                                0 <= q0 < prev_take.len() && !(spec_parse_decimal(
                                    (#[trigger] prev_take[q0])[j as int].content,
                                ) is Some);
                            assert(cur[q0] == prev_take[q0]);
                            assert(!all_parse(cur, j as int));
                        }
                    }
                }
                proof {
                    assert(run.take(run.len() as int) =~= run);
                }
                if all_ok {
                    // Sum the run's values in column j.
                    let mut sum: i128 = 0;
                    let glen = group.len();
                    let mut k2: usize = 0;
                    while k2 < glen
                        invariant
                            k2 <= group@.len(),
                            j < self@.columns.len(),
                            all_parse(run, j as int),
                            glen == group@.len(),
                            sum == col_sum(run.take(k2 as int), j as int),
                            -(k2 as int) * (UNIT_BOUND - 1) <= sum <= (k2 as int) * (UNIT_BOUND - 1),
                        decreases group@.len() - k2,
                    {
                        proof {
                            assert(run[k2 as int].len() == group@[k2 as int]@.len());
                        }
                        let cell = &group[k2][j];
                        let chars = crate::text::string_to_chars(cell.content.as_str());
                        let parsed = parse_decimal_chars(&chars);
                        let ghost prev_take = run.take(k2 as int);
                        match parsed {
                            Some(dec) => {
                                let u = decimal_units(&dec);
                                sum = sum + u;
                            },
                            None => {
                                proof {
                                    assert(spec_parse_decimal(run[k2 as int][j as int].content) is Some);
                                    assert(false);
                                }
                            },
                        }
                        k2 = k2 + 1;
                        proof {
                            let cur = run.take(k2 as int);
                            assert(cur.drop_last() =~= prev_take);
                            assert(cur.last() == run[k2 - 1]);
                        }
                    }
                    proof {
                        assert(run.take(run.len() as int) =~= run);
                    }
                    let digits = fixed_chars(sum);
                    let text = chars_to_string(&digits);
                    r.push(Cell::new(text.as_str()));
                } else {
                    let empty = Cell::new("");
                    proof {
                        reveal_strlit("");
                        assert(""@ =~= Seq::<char>::empty());
                    }
                    r.push(empty);
                }
            }
            j = j + 1;
            proof {
                let target = spec_subtotal_row(run, ncols, column_index as int);
                assert(row_view(r@) =~= r_prev.push(r@[r@.len() - 1]@));
                assert(target.take(j as int) =~= target.take(j - 1).push(target[j - 1]));
                assert(r@[r@.len() - 1]@ == target[j - 1]);
            }
        }
        proof {
            let target = spec_subtotal_row(run, ncols, column_index as int);
            assert(target.take(target.len() as int) =~= target);
        }
        r
    }

    /// Replaces the row sequence with its grouped form: each maximal run of
    /// rows sharing a value in `column_index`, followed by that run's
    /// subtotal row, as [`spec_grouped`] describes.
    ///
    /// Running this again on the grouped result treats the subtotal rows as
    /// ordinary data rows; grouping is not meant to be applied twice.
    #[verifier::loop_isolation(false)]
    #[verifier::rlimit(100)]
    pub fn group_by_column_with_subtotals(&mut self, column_index: usize)
        requires
            old(self).wf(),
            column_index < old(self)@.columns.len(),
        ensures
            final(self)@.rows == spec_grouped(
                old(self)@.rows,
                old(self)@.columns.len() as int,
                column_index as int,
            ),
            final(self)@.columns == old(self)@.columns,
            final(self)@.style == old(self)@.style,
            final(self)@.header_color == old(self)@.header_color,
            final(self)@.row_color == old(self)@.row_color,
            final(self)@.border_color == old(self)@.border_color,
            final(self).wf(),
    {
        let ghost ncols = self@.columns.len() as int;
        let ghost whole = self@.rows;
        proof {
            assert forall|q: int| 0 <= q < self.rows@.len() implies column_index < (
            #[trigger] self.rows@[q])@.len() by {
                assert(self@.rows[q].len() == self@.columns.len());
                assert(row_view(self.rows@[q]@).len() == self.rows@[q]@.len());
            }
        }
        let mut out: Vec<Vec<Cell>> = Vec::new();
        proof {
            assert(whole.skip(0) =~= whole);
            assert(rows_view(out@) =~= Seq::<Seq<CellV>>::empty());
            assert(rows_view(out@) + spec_grouped(whole, ncols, column_index as int)
                =~= spec_grouped(whole, ncols, column_index as int));
        }
        let mut k: usize = 0;
        while k < self.rows.len()
            invariant
                k <= self.rows@.len(),
                rows_view(out@) + spec_grouped(whole.skip(k as int), ncols, column_index as int)
                    == spec_grouped(whole, ncols, column_index as int),
                forall|q: int| 0 <= q < out@.len() ==> (#[trigger] out@[q])@.len()
                    == self@.columns.len(),
            decreases self.rows@.len() - k,
        {
            // Scan to the end of the run that starts at k.
            let mut e: usize = k + 1;
            while run_continues(&self.rows, k, e, column_index)
                invariant
                    k < e <= self.rows@.len(),
                    forall|i: int| k < i < e ==> (#[trigger] whole[i])[column_index as int].content
                        == whole[k as int][column_index as int].content,
                decreases self.rows@.len() - e,
            {
                e = e + 1;
            }
            let ghost rest = whole.skip(k as int);
            proof {
                assert forall|i: int| 1 <= i < e - k implies (#[trigger] rest[i])[
                column_index as int].content == rest[0][column_index as int].content by {
                    assert(rest[i] == whole[k + i]);
                    assert(rest[0] == whole[k as int]);
                }
                if e - k < rest.len() {
                    assert(rest[e - k] == whole[e as int]);
                }
                lemma_first_run_characterization(rest, column_index as int, e - k);
            }
            // Copy the run and compute its subtotal row.
            let mut run: Vec<Vec<Cell>> = Vec::new();
            let mut i: usize = k;
            while i < e
                invariant
                    k <= i <= e <= self.rows@.len(),
                    rows_view(run@) == whole.subrange(k as int, i as int),
                    forall|q: int| 0 <= q < run@.len() ==> (#[trigger] run@[q])@.len()
                        == self@.columns.len(),
                decreases e - i,
            {
                let ghost run_prev = rows_view(run@);
                proof {
                    assert(self@.rows[i as int].len() == self@.columns.len());
                    assert(row_view(self.rows@[i as int]@).len() == self.rows@[i as int]@.len());
                }
                let row = duplicate_row(&self.rows[i]);
                run.push(row);
                i = i + 1;
                proof {
                    assert(rows_view(run@) =~= run_prev.push(whole[i - 1]));
                    assert(whole.subrange(k as int, i as int) =~= whole.subrange(
                        k as int,
                        i - 1,
                    ).push(whole[i - 1]));
                }
            }
            let subtotal = self.calculate_subtotal(&run, column_index);
            let ghost out_before = rows_view(out@);
            let ghost run_views = rows_view(run@);
            out.append(&mut run);
            proof {
                assert(rows_view(out@) =~= out_before + run_views);
            }
            let ghost out_mid = rows_view(out@);
            out.push(subtotal);
            let ghost kprev = k as int;
            k = e;
            proof {
                assert(rows_view(out@) =~= out_mid.push(row_view(subtotal@)));
                let sub_row = spec_subtotal_row(rest.take(e - kprev), ncols, column_index as int);
                assert(rest.take(e - kprev) =~= whole.subrange(kprev, e as int));
                assert(row_view(subtotal@) == sub_row);
                assert(rest.skip(e - kprev) =~= whole.skip(e as int));
                assert(spec_grouped(rest, ncols, column_index as int) == rest.take(e - kprev)
                    + seq![sub_row] + spec_grouped(whole.skip(e as int), ncols, column_index as int));
                assert(rows_view(out@) + spec_grouped(whole.skip(e as int), ncols, column_index as int)
                    =~= spec_grouped(whole, ncols, column_index as int));
                assert(sub_row.len() == ncols);
            }
        }
        proof {
            assert(whole.skip(whole.len() as int) =~= Seq::<Seq<CellV>>::empty());
            assert(rows_view(out@) =~= rows_view(out@) + spec_grouped(
                whole.skip(whole.len() as int),
                ncols,
                column_index as int,
            ));
        }
        self.rows = out;
    }
}

} // verus!
