//! The data model: columns, cells, cell styles, and the table that owns them.
//!
//! The table's standing invariant is that every row has exactly one cell per
//! column.  Transforms (sorting, filtering) speak of the rows' views: the
//! mathematical sequences of cell contents and styles.

use vstd::prelude::*;
use vstd::seq_lib::group_to_multiset_ensures;
use crate::style::{Alignment, TableStyle, TextColor};
use crate::numbers::spec_display;
use crate::numbers::format_display;
use crate::text::{chars_to_string, deep_strings, spec_lines, string_to_chars};

verus! {

/// Per-cell display options: text attributes, padding, and numeric
/// formatting.
#[derive(Clone, Copy, Debug, PartialEq, Eq)]
pub struct CellStyle {
    /// Render the cell text bold.
    pub bold: bool,
    /// Render the cell text italic.
    pub italic: bool,
    /// Render the cell text underlined.
    pub underline: bool,
    /// Spaces on each side of the aligned text in bordered styles.
    pub padding: usize,
    /// Reformat numeric content to exactly this many decimal places.
    pub decimal_places: Option<usize>,
    /// Insert thousands separators into numeric content.
    pub thousand_separator: bool,
}

impl CellStyle {
    /// The default style: no attributes, one space of padding, no numeric
    /// reformatting.
    pub fn new() -> (r: Self)
        ensures
            r == (CellStyle {
                bold: false,
                italic: false,
                underline: false,
                padding: 1,
                decimal_places: None,
                thousand_separator: false,
            }),
    {
        Self {
            bold: false,
            italic: false,
            underline: false,
            padding: 1,
            decimal_places: None,
            thousand_separator: false,
        }
    }
}

/// A column: header text, width, and the alignment of its cells.
#[derive(Clone, Debug)]
pub struct Column {
    /// The header text.
    pub header: String,
    /// The column width the renderer lays text out against.
    pub width: usize,
    /// How cell text is aligned within the width.
    pub alignment: Alignment,
}

/// The mathematical value of a [`Column`].
pub struct ColumnV {
    pub header: Seq<char>,
    pub width: nat,
    pub alignment: Alignment,
}

impl View for Column {
    type V = ColumnV;

    open spec fn view(&self) -> ColumnV {
        ColumnV { header: self.header@, width: self.width as nat, alignment: self.alignment }
    }
}

/// A cell: raw text content and its display style.
#[derive(Clone, Debug, PartialEq, Eq)]
pub struct Cell {
    /// The raw text; it may hold embedded line breaks or a decimal number.
    pub content: String,
    /// The cell's display style.
    pub style: CellStyle,
}

/// The mathematical value of a [`Cell`].
pub struct CellV {
    pub content: Seq<char>,
    pub style: CellStyle,
}

impl View for Cell {
    type V = CellV;

    open spec fn view(&self) -> CellV {
        CellV { content: self.content@, style: self.style }
    }
}

/// What a cell displays as, after numeric reformatting.
pub open spec fn spec_cell_display(c: CellV) -> Seq<char> {
    spec_display(c.content, c.style.decimal_places, c.style.thousand_separator)
}

impl Cell {
    /// A cell with the given content and the default style.
    pub fn new(content: &str) -> (r: Self)
        ensures
            r@.content == content@,
            r@.style == (CellStyle {
                bold: false,
                italic: false,
                underline: false,
                padding: 1,
                decimal_places: None,
                thousand_separator: false,
            }),
    {
        Self { content: content.to_owned(), style: CellStyle::new() }
    }

    /// The cell's content split into lines at embedded line breaks.
    pub fn lines(&self) -> (r: Vec<String>)
        ensures
            deep_strings(r@) == spec_lines(self@.content),
    {
        crate::text::lines_of(self.content.as_str())
    }

    /// The cell's display text: numeric content reformatted to the style's
    /// decimal places and grouping, anything else returned unchanged.
    pub fn formatted_content(&self) -> (r: String)
        ensures
            r@ == spec_cell_display(self@),
    {
        let chars = string_to_chars(self.content.as_str());
        let shown = format_display(&chars, self.style.decimal_places, self.style.thousand_separator);
        chars_to_string(&shown)
    }

    /// A copy of this cell with the same content and style.
    pub fn duplicate(&self) -> (r: Cell)
        ensures
            r@ == self@,
    {
        Cell { content: self.content.clone(), style: self.style }
    }
}

/// The mathematical values of a row of cells.
pub open spec fn row_view(r: Seq<Cell>) -> Seq<CellV> {
    r.map_values(|c: Cell| c@)
}

/// The mathematical values of a sequence of rows.
pub open spec fn rows_view(rs: Seq<Vec<Cell>>) -> Seq<Seq<CellV>> {
    rs.map_values(|r: Vec<Cell>| row_view(r@))
}

/// The mathematical values of the columns.
pub open spec fn cols_view(cs: Seq<Column>) -> Seq<ColumnV> {
    cs.map_values(|c: Column| c@)
}

/// The error a table operation signals: a structural violation of the
/// table's row/column invariant.
#[derive(Clone, Copy, Debug, PartialEq, Eq, Structural)]
pub enum TableError {
    /// A row's cell count does not equal the table's column count.
    RowLengthMismatch,
}

/// A table: ordered columns, ordered rows of cells, a selected style, and
/// optional override colors for header, rows, and borders.
#[derive(Debug)]
pub struct Table {
    /// The columns, in display order.
    pub columns: Vec<Column>,
    /// The rows; each holds exactly one cell per column.
    pub rows: Vec<Vec<Cell>>,
    /// The border style the table renders with.
    pub style: TableStyle,
    /// Overrides the header text color when set.
    pub header_color: Option<TextColor>,
    /// Overrides the row text color when set.
    pub row_color: Option<TextColor>,
    /// Overrides the border color when set.
    pub border_color: Option<TextColor>,
}

/// The mathematical value of a [`Table`].
pub struct TableV {
    pub columns: Seq<ColumnV>,
    pub rows: Seq<Seq<CellV>>,
    pub style: TableStyle,
    pub header_color: Option<TextColor>,
    pub row_color: Option<TextColor>,
    pub border_color: Option<TextColor>,
}

impl View for Table {
    type V = TableV;

    open spec fn view(&self) -> TableV {
        TableV {
            columns: cols_view(self.columns@),
            rows: rows_view(self.rows@),
            style: self.style,
            header_color: self.header_color,
            row_color: self.row_color,
            border_color: self.border_color,
        }
    }
}

/// The table's standing invariant: every row has one cell per column.
pub open spec fn table_wf(t: TableV) -> bool {
    forall|i: int| 0 <= i < t.rows.len() ==> (#[trigger] t.rows[i]).len() == t.columns.len()
}

/// Lexicographic order on text, by character scalar value.
pub open spec fn lex_le(a: Seq<char>, b: Seq<char>) -> bool
    decreases a.len(),
{
    if a.len() == 0 {
        true
    } else if b.len() == 0 {
        false
    } else if (a[0] as int) < (b[0] as int) {
        true
    } else if (b[0] as int) < (a[0] as int) {
        false
    } else {
        lex_le(a.skip(1), b.skip(1))
    }
}

proof fn lemma_lex_le_total(a: Seq<char>, b: Seq<char>)
    ensures
        lex_le(a, b) || lex_le(b, a),
    decreases a.len(),
{
    if a.len() > 0 && b.len() > 0 && a[0] == b[0] {
        lemma_lex_le_total(a.skip(1), b.skip(1));
    }
}

proof fn lemma_lex_le_skip(a: Seq<char>, b: Seq<char>, i: int)
    requires
        0 <= i <= a.len(),
        i <= b.len(),
        forall|j: int| 0 <= j < i ==> a[j] == b[j],
    ensures
        lex_le(a, b) == lex_le(a.skip(i), b.skip(i)),
    decreases i,
{
    if i > 0 {
        assert(a[0] == b[0]);
        lemma_lex_le_skip(a.skip(1), b.skip(1), i - 1);
        assert(a.skip(1).skip(i - 1) =~= a.skip(i));
        assert(b.skip(1).skip(i - 1) =~= b.skip(i));
    } else {
        assert(a.skip(0) =~= a);
        assert(b.skip(0) =~= b);
    }
}

/// Whether `a` sorts at or before `b` on text content, ascending or
/// descending.
pub open spec fn key_le(ascending: bool, a: Seq<char>, b: Seq<char>) -> bool {
    if ascending {
        lex_le(a, b)
    } else {
        lex_le(b, a)
    }
}

/// Rows ordered by the content of the cell at `col`.
pub open spec fn sorted_by_column(rows: Seq<Seq<CellV>>, col: int, ascending: bool) -> bool {
    forall|k: int|
        0 <= k < rows.len() - 1 ==> key_le(
            ascending,
            (#[trigger] rows[k])[col].content,
            rows[k + 1][col].content,
        )
}

/// The widest display text among the cells of column `i`.
pub open spec fn col_content_max(rows: Seq<Seq<CellV>>, i: int) -> nat
    decreases rows.len(),
{
    if rows.len() == 0 {
        0
    } else {
        let rest = col_content_max(rows.drop_last(), i);
        let cur = spec_cell_display(rows.last()[i]).len();
        if cur > rest {
            cur
        } else {
            rest
        }
    }
}

/// The width auto-adjustment gives column `i`: the longer of the header and
/// the widest cell display text, plus a margin of two.
pub open spec fn spec_auto_width(t: TableV, i: int) -> nat {
    let h = t.columns[i].header.len();
    let c = col_content_max(t.rows, i);
    (if h > c {
        h
    } else {
        c
    }) + 2
}

/// Whether `a` is `b` with zero or more elements removed, order kept.
pub open spec fn is_subseq_of<T>(a: Seq<T>, b: Seq<T>) -> bool
    decreases a.len(), b.len(),
{
    if a.len() == 0 {
        true
    } else if b.len() == 0 {
        false
    } else if a[0] == b[0] {
        is_subseq_of(a.skip(1), b.skip(1))
    } else {
        is_subseq_of(a, b.skip(1))
    }
}

proof fn lemma_subseq_extend_right<T>(a: Seq<T>, b: Seq<T>, x: T)
    requires
        is_subseq_of(a, b),
    ensures
        is_subseq_of(a, b.push(x)),
    decreases a.len(), b.len(),
{
    if a.len() != 0 {
        if b.len() == 0 {
        } else if a[0] == b[0] {
            lemma_subseq_extend_right(a.skip(1), b.skip(1), x);
            assert(b.push(x).skip(1) =~= b.skip(1).push(x));
        } else {
            lemma_subseq_extend_right(a, b.skip(1), x);
            assert(b.push(x).skip(1) =~= b.skip(1).push(x));
        }
    } else {
        assert(is_subseq_of(a, b.push(x)));
    }
}

proof fn lemma_subseq_single<T>(x: T, b: Seq<T>)
    ensures
        is_subseq_of(seq![x], b.push(x)),
    decreases b.len(),
{
    let a = seq![x];
    assert(a[0] == x);
    if b.len() == 0 {
        assert(b.push(x)[0] == x);
        assert(a.skip(1) =~= Seq::<T>::empty());
        assert(is_subseq_of(a.skip(1), b.push(x).skip(1)));
    } else if b.push(x)[0] == x {
        assert(a.skip(1) =~= Seq::<T>::empty());
        assert(is_subseq_of(a.skip(1), b.push(x).skip(1)));
    } else {
        lemma_subseq_single(x, b.skip(1));
        assert(b.push(x).skip(1) =~= b.skip(1).push(x));
        assert(is_subseq_of(a, b.push(x).skip(1)));
    }
}

proof fn lemma_subseq_push_both<T>(a: Seq<T>, b: Seq<T>, x: T)
    requires
        is_subseq_of(a, b),
    ensures
        is_subseq_of(a.push(x), b.push(x)),
    decreases a.len(), b.len(),
{
    if a.len() == 0 {
        lemma_subseq_single(x, b);
        assert(a.push(x) =~= seq![x]);
    } else if b.len() == 0 {
    } else if a[0] == b[0] {
        lemma_subseq_push_both(a.skip(1), b.skip(1), x);
        assert(a.push(x).skip(1) =~= a.skip(1).push(x));
        assert(b.push(x).skip(1) =~= b.skip(1).push(x));
        assert(a.push(x)[0] == b.push(x)[0]);
    } else {
        lemma_subseq_push_both(a, b.skip(1), x);
        assert(b.push(x).skip(1) =~= b.skip(1).push(x));
    }
}

/// A copy of a row, cell by cell.
pub fn duplicate_row(r: &Vec<Cell>) -> (c: Vec<Cell>)
    ensures
        row_view(c@) == row_view(r@),
{
    let mut c: Vec<Cell> = Vec::new();
    let mut i: usize = 0;
    while i < r.len()
        invariant
            i <= r@.len(),
            row_view(c@) == row_view(r@).take(i as int),
        decreases r@.len() - i,
    {
        let ghost prev = c@;
        c.push(r[i].duplicate());
        i = i + 1;
        proof {
            assert(row_view(c@) =~= row_view(prev).push(c@[c@.len() - 1]@));
            assert(row_view(r@).take(i as int) =~= row_view(r@).take(i - 1).push(row_view(r@)[i - 1]));
        }
    }
    proof {
        assert(row_view(r@).take(r@.len() as int) =~= row_view(r@));
    }
    c
}

impl Table {
    /// The table's standing invariant: every row has one cell per column.
    pub open spec fn wf(&self) -> bool {
        table_wf(self@)
    }

    /// An empty table that renders with `style`.
    pub fn new(style: TableStyle) -> (r: Self)
        ensures
            r@.columns.len() == 0,
            r@.rows.len() == 0,
            r@.style == style,
            r@.header_color is None,
            r@.row_color is None,
            r@.border_color is None,
            r.wf(),
    {
        Self {
            columns: Vec::new(),
            rows: Vec::new(),
            style,
            header_color: None,
            row_color: None,
            border_color: None,
        }
    }

    /// Appends a column.  Columns are laid down before any rows, so that
    /// every row always has one cell per column.
    pub fn add_column(&mut self, header: &str, width: usize, alignment: Alignment)
        requires
            old(self).wf(),
            old(self)@.rows.len() == 0,
        ensures
            final(self)@.columns == old(self)@.columns.push(
                ColumnV { header: header@, width: width as nat, alignment },
            ),
            final(self)@.rows == old(self)@.rows,
            final(self)@.style == old(self)@.style,
            final(self)@.header_color == old(self)@.header_color,
            final(self)@.row_color == old(self)@.row_color,
            final(self)@.border_color == old(self)@.border_color,
            final(self).wf(),
    {
        let ghost prev = self.columns@;
        self.columns.push(Column { header: header.to_owned(), width, alignment });
        proof {
            assert(cols_view(self.columns@) =~= cols_view(prev).push(self.columns@[self.columns@.len() - 1]@));
        }
    }

    /// Appends a row.  The row must hold exactly one cell per column; see
    /// [`Table::try_add_row`] for the checked form.
    pub fn add_row(&mut self, row: Vec<Cell>)
        requires
            old(self).wf(),
            row@.len() == old(self)@.columns.len(),
        ensures
            final(self)@.rows == old(self)@.rows.push(row_view(row@)),
            final(self)@.columns == old(self)@.columns,
            final(self)@.style == old(self)@.style,
            final(self)@.header_color == old(self)@.header_color,
            final(self)@.row_color == old(self)@.row_color,
            final(self)@.border_color == old(self)@.border_color,
            final(self).wf(),
    {
        let ghost prev = self.rows@;
        self.rows.push(row);
        proof {
            assert(rows_view(self.rows@) =~= rows_view(prev).push(row_view(self.rows@[self.rows@.len() - 1]@)));
            assert(row_view(row@).len() == row@.len());
            assert forall|i: int| 0 <= i < self@.rows.len() implies (#[trigger] self@.rows[i]).len()
                == self@.columns.len() by {
                if i < old(self)@.rows.len() {
                    assert(old(self)@.rows[i].len() == old(self)@.columns.len());
                }
            }
        }
    }

    /// Appends a row if it holds exactly one cell per column; otherwise
    /// signals the structural violation and leaves the table unchanged.
    pub fn try_add_row(&mut self, row: Vec<Cell>) -> (r: Result<(), TableError>)
        requires
            old(self).wf(),
        ensures
            r is Ok <==> row@.len() == old(self)@.columns.len(),
            r is Ok ==> final(self)@.rows == old(self)@.rows.push(row_view(row@)),
            r is Err ==> final(self)@ == old(self)@ && r == Err::<(), TableError>(
                TableError::RowLengthMismatch,
            ),
            final(self)@.columns == old(self)@.columns,
            final(self)@.style == old(self)@.style,
            final(self)@.header_color == old(self)@.header_color,
            final(self)@.row_color == old(self)@.row_color,
            final(self)@.border_color == old(self)@.border_color,
            final(self).wf(),
    {
        if row.len() == self.columns.len() {
            self.add_row(row);
            Ok(())
        } else {
            Err(TableError::RowLengthMismatch)
        }
    }

    /// Sets every column's width from its content: the longer of the header
    /// and the widest cell display text, plus a margin of two.
    #[verifier::loop_isolation(false)]
    #[verifier::rlimit(100)]
    pub fn auto_adjust_widths(&mut self)
        requires
            old(self).wf(),
            forall|i: int| 0 <= i < old(self)@.columns.len() ==> spec_auto_width(old(self)@, i)
                <= usize::MAX,
        ensures
            final(self)@.columns.len() == old(self)@.columns.len(),
            forall|i: int| 0 <= i < old(self)@.columns.len() ==> final(self)@.columns[i]
                == (ColumnV {
                header: old(self)@.columns[i].header,
                width: spec_auto_width(old(self)@, i),
                alignment: old(self)@.columns[i].alignment,
            }),
            final(self)@.rows == old(self)@.rows,
            final(self)@.style == old(self)@.style,
            final(self)@.header_color == old(self)@.header_color,
            final(self)@.row_color == old(self)@.row_color,
            final(self)@.border_color == old(self)@.border_color,
            final(self).wf(),
    {
        let mut widths: Vec<usize> = Vec::new();
        let mut i: usize = 0;
        while i < self.columns.len()
            invariant
                i <= self.columns@.len(),
                widths@.len() == i,
                forall|q: int| 0 <= q < i ==> widths@[q] == spec_auto_width(self@, q),
            decreases self.columns@.len() - i,
        {
            let mut m: usize = self.columns[i].header.as_str().unicode_len();
            let mut k: usize = 0;
            while k < self.rows.len()
                invariant
                    k <= self.rows@.len(),
                    i < self.columns@.len(),
                    m == ({
                        let h = self@.columns[i as int].header.len();
                        let c = col_content_max(self@.rows.take(k as int), i as int);
                        if h > c {
                            h
                        } else {
                            c
                        }
                    }),
                decreases self.rows@.len() - k,
            {
                proof {
                    assert(self@.rows[k as int].len() == self@.columns.len());
                    assert(row_view(self.rows@[k as int]@).len() == self.rows@[k as int]@.len());
                }
                let cell = &self.rows[k][i];
                let chars = string_to_chars(cell.content.as_str());
                let shown = format_display(&chars, cell.style.decimal_places, cell.style.thousand_separator);
                proof {
                    assert(shown@ == spec_cell_display(self@.rows[k as int][i as int]));
                }
                if shown.len() > m {
                    m = shown.len();
                }
                k = k + 1;
                proof {
                    let taken = self@.rows.take(k as int);
                    assert(taken.drop_last() =~= self@.rows.take(k - 1));
                    assert(taken.last() == self@.rows[k - 1]);
                }
            }
            proof {
                assert(self@.rows.take(self@.rows.len() as int) =~= self@.rows);
                assert(spec_auto_width(self@, i as int) <= usize::MAX);
            }
            widths.push(m + 2);
            i = i + 1;
        }
        let ghost before = self@;
        let mut c: usize = 0;
        while c < self.columns.len()
            invariant
                c <= self.columns@.len(),
                self.columns@.len() == before.columns.len(),
                widths@.len() == before.columns.len(),
                forall|q: int| 0 <= q < before.columns.len() ==> widths@[q] == spec_auto_width(
                    before,
                    q,
                ),
                self@.rows == before.rows,
                self@.style == before.style,
                self@.header_color == before.header_color,
                self@.row_color == before.row_color,
                self@.border_color == before.border_color,
                forall|q: int| 0 <= q < c ==> self@.columns[q] == (ColumnV {
                    header: before.columns[q].header,
                    width: spec_auto_width(before, q),
                    alignment: before.columns[q].alignment,
                }),
                forall|q: int| c <= q < before.columns.len() ==> self@.columns[q]
                    == before.columns[q],
            decreases self.columns@.len() - c,
        {
            let header = self.columns[c].header.clone();
            let alignment = self.columns[c].alignment;
            let w = widths[c];
            let ghost cols_prev = self.columns@;
            self.columns.set(c, Column { header, width: w, alignment });
            c = c + 1;
            proof {
                assert(cols_view(self.columns@) =~= cols_view(cols_prev).update(
                    c - 1,
                    self.columns@[c - 1]@,
                ));
            }
        }
    }

    /// Sorts the rows by the text content of the cells in `column_index`:
    /// lexicographic on character values, ascending or descending.  The new
    /// row sequence is a permutation of the old one.
    #[verifier::loop_isolation(false)]
    #[verifier::rlimit(100)]
    pub fn sort_by_column(&mut self, column_index: usize, ascending: bool)
        requires
            old(self).wf(),
            column_index < old(self)@.columns.len(),
        ensures
            final(self)@.rows.to_multiset() == old(self)@.rows.to_multiset(),
            final(self)@.rows.len() == old(self)@.rows.len(),
            sorted_by_column(final(self)@.rows, column_index as int, ascending),
            final(self)@.columns == old(self)@.columns,
            final(self)@.style == old(self)@.style,
            final(self)@.header_color == old(self)@.header_color,
            final(self)@.row_color == old(self)@.row_color,
            final(self)@.border_color == old(self)@.border_color,
            final(self).wf(),
    {
        broadcast use group_to_multiset_ensures;
        broadcast use vstd::seq_lib::to_multiset_insert;

        let ghost orig = rows_view(self.rows@);
        let mut out: Vec<Vec<Cell>> = Vec::new();
        let mut k: usize = 0;
        while k < self.rows.len()
            invariant
                k <= self.rows@.len(),
                self.wf(),
                column_index < self@.columns.len(),
                rows_view(out@).to_multiset() == rows_view(self.rows@).take(k as int).to_multiset(),
                sorted_by_column(rows_view(out@), column_index as int, ascending),
                forall|q: int| 0 <= q < out@.len() ==> (#[trigger] out@[q])@.len()
                    == self@.columns.len(),
            decreases self.rows@.len() - k,
        {
            let row = duplicate_row(&self.rows[k]);
            proof {
                assert(row@.len() == row_view(row@).len());
                assert(row_view(self.rows@[k as int]@).len() == self@.rows[k as int].len());
            }
            // Find the first position whose key sorts after the new row's.
            let mut p: usize = 0;
            while scan_le(&out, p, ascending, &row, column_index)
                invariant
                    p <= out@.len(),
                    row_view(row@) == row_view(self.rows@[k as int]@),
                    row@.len() == self@.columns.len(),
                    forall|q: int| 0 <= q < p ==> key_le(
                        ascending,
                        rows_view(out@)[q][column_index as int].content,
                        row_view(row@)[column_index as int].content,
                    ),
                    forall|q: int| 0 <= q < out@.len() ==> (#[trigger] out@[q])@.len()
                        == self@.columns.len(),
                decreases out@.len() - p,
            {
                p = p + 1;
            }
            let ghost out_prev = out@;
            let ghost rv = row_view(row@);
            out.insert(p, row);
            k = k + 1;
            proof {
                assert(rows_view(out@) =~= rows_view(out_prev).insert(p as int, rv));
                assert(rows_view(self.rows@).take(k as int) =~= rows_view(self.rows@).take(
                    k - 1,
                ).push(rv));
                if p < out_prev.len() {
                    lemma_lex_le_total(
                        rows_view(out_prev)[p as int][column_index as int].content,
                        rv[column_index as int].content,
                    );
                }
                assert forall|q: int|
                    0 <= q < rows_view(out@).len() - 1 implies key_le(
                    ascending,
                    (#[trigger] rows_view(out@)[q])[column_index as int].content,
                    rows_view(out@)[q + 1][column_index as int].content,
                ) by {
                    let ov = rows_view(out_prev);
                    let nv = rows_view(out@);
                    if q + 1 <= p - 1 {
                        assert(nv[q] == ov[q] && nv[q + 1] == ov[q + 1]);
                    } else if q == p - 1 {
                        assert(nv[q] == ov[q] && nv[q + 1] == rv);
                    } else if q == p {
                        assert(nv[q] == rv && nv[q + 1] == ov[q]);
                    } else {
                        assert(nv[q] == ov[q - 1] && nv[q + 1] == ov[q]);
                    }
                }
            }
        }
        proof {
            assert(rows_view(self.rows@).take(self.rows@.len() as int) =~= rows_view(self.rows@));
            assert(rows_view(out@).to_multiset().len() == rows_view(out@).len());
            assert(rows_view(self.rows@).to_multiset().len() == rows_view(self.rows@).len());
        }
        self.rows = out;
    }

    /// A new table with the same columns, style, and colors, keeping only
    /// the rows the predicate accepts; the source table is unchanged.  Every
    /// kept row is one of the source rows, in source order.
    #[verifier::loop_isolation(false)]
    #[verifier::rlimit(100)]
    pub fn filter_rows<F: Fn(&Vec<Cell>) -> bool>(&self, predicate: F) -> (r: Table)
        requires
            self.wf(),
            forall|i: int| 0 <= i < self.rows@.len() ==> call_requires(
                predicate,
                (&self.rows@[i],),
            ),
        ensures
            r@.columns == self@.columns,
            r@.style == self@.style,
            r@.header_color == self@.header_color,
            r@.row_color == self@.row_color,
            r@.border_color == self@.border_color,
            is_subseq_of(r@.rows, self@.rows),
            forall|i: int| 0 <= i < r@.rows.len() ==> exists|j: int|
                0 <= j < self.rows@.len() && (#[trigger] r@.rows[i]) == rows_view(self.rows@)[j]
                    && call_ensures(predicate, (&self.rows@[j],), true),
            r.wf(),
    {
        let mut kept: Vec<Vec<Cell>> = Vec::new();
        let mut k: usize = 0;
        while k < self.rows.len()
            invariant
                k <= self.rows@.len(),
                self.wf(),
                forall|i: int| 0 <= i < self.rows@.len() ==> call_requires(
                    predicate,
                    (&self.rows@[i],),
                ),
                is_subseq_of(rows_view(kept@), rows_view(self.rows@).take(k as int)),
                forall|q: int| 0 <= q < kept@.len() ==> (#[trigger] kept@[q])@.len()
                    == self@.columns.len(),
                forall|i: int| 0 <= i < kept@.len() ==> exists|j: int|
                    0 <= j < self.rows@.len() && (#[trigger] rows_view(kept@)[i]) == rows_view(
                        self.rows@,
                    )[j] && call_ensures(predicate, (&self.rows@[j],), true),
            decreases self.rows@.len() - k,
        {
            let ghost kept_prev = rows_view(kept@);
            let ghost seen_prev = rows_view(self.rows@).take(k as int);
            let accepted = predicate(&self.rows[k]);
            if accepted {
                let row = duplicate_row(&self.rows[k]);
                proof {
                    assert(row_view(row@).len() == row@.len());
                    assert(self@.rows[k as int].len() == self@.columns.len());
                    assert(row_view(self.rows@[k as int]@).len() == self.rows@[k as int]@.len());
                }
                kept.push(row);
                proof {
                    assert(rows_view(kept@) =~= kept_prev.push(rows_view(self.rows@)[k as int]));
                    assert forall|i: int| 0 <= i < kept@.len() implies exists|j: int|
                        0 <= j < self.rows@.len() && (#[trigger] rows_view(kept@)[i]) == rows_view(
                            self.rows@,
                        )[j] && call_ensures(predicate, (&self.rows@[j],), true) by {
                        if i < kept_prev.len() {
                            assert(rows_view(kept@)[i] == kept_prev[i]);
                        } else {
                            assert(rows_view(kept@)[i] == rows_view(self.rows@)[k as int]);
                        }
                    }
                }
            }
            k = k + 1;
            proof {
                let seen = rows_view(self.rows@).take(k as int);
                assert(seen =~= seen_prev.push(rows_view(self.rows@)[k - 1]));
                if rows_view(kept@) == kept_prev {
                    lemma_subseq_extend_right(
                        kept_prev,
                        seen_prev,
                        rows_view(self.rows@)[k - 1],
                    );
                } else {
                    lemma_subseq_push_both(
                        kept_prev,
                        seen_prev,
                        rows_view(self.rows@)[k - 1],
                    );
                }
            }
        }
        proof {
            assert(rows_view(self.rows@).take(self.rows@.len() as int) =~= rows_view(self.rows@));
        }
        let mut cols: Vec<Column> = Vec::new();
        let mut c: usize = 0;
        while c < self.columns.len()
            invariant
                c <= self.columns@.len(),
                cols_view(cols@) == cols_view(self.columns@).take(c as int),
            decreases self.columns@.len() - c,
        {
            let ghost prev = cols_view(cols@);
            let col = &self.columns[c];
            cols.push(Column { header: col.header.clone(), width: col.width, alignment: col.alignment });
            c = c + 1;
            proof {
                assert(cols_view(cols@) =~= prev.push(cols_view(self.columns@)[c - 1]));
                assert(cols_view(self.columns@).take(c as int) =~= cols_view(self.columns@).take(
                    c - 1,
                ).push(cols_view(self.columns@)[c - 1]));
            }
        }
        proof {
            assert(cols_view(self.columns@).take(self.columns@.len() as int) =~= cols_view(
                self.columns@,
            ));
        }
        Table {
            columns: cols,
            rows: kept,
            style: self.style,
            header_color: self.header_color,
            row_color: self.row_color,
            border_color: self.border_color,
        }
    }
}

/// Whether the scan over `out` should advance past position `p`: the row
/// there sorts at or before `row` on the cells in column `col`.
fn scan_le(out: &Vec<Vec<Cell>>, p: usize, ascending: bool, row: &Vec<Cell>, col: usize) -> (r: bool)
    requires
        col < row@.len(),
        forall|q: int| 0 <= q < out@.len() ==> col < (#[trigger] out@[q])@.len(),
    ensures
        r == (p < out@.len() && key_le(
            ascending,
            row_view(out@[p as int]@)[col as int].content,
            row_view(row@)[col as int].content,
        )),
        r ==> out@.len() <= usize::MAX,
{
    if p < out.len() {
        content_le_dir(ascending, &out[p][col].content, &row[col].content)
    } else {
        false
    }
}

/// Whether `a` sorts at or before `b` in the requested direction.
pub fn content_le_dir(ascending: bool, a: &String, b: &String) -> (r: bool)
    ensures
        r == key_le(ascending, a@, b@),
{
    if ascending {
        content_le(a, b)
    } else {
        content_le(b, a)
    }
}

/// Whether `a` is lexicographically at or before `b`.
#[verifier::loop_isolation(false)]
pub fn content_le(a: &String, b: &String) -> (r: bool)
    ensures
        r == lex_le(a@, b@),
{
    let va = string_to_chars(a.as_str());
    let vb = string_to_chars(b.as_str());
    let mut i: usize = 0;
    while i < va.len() && i < vb.len()
        invariant
            i <= va@.len(),
            i <= vb@.len(),
            forall|j: int| 0 <= j < i ==> va@[j] == vb@[j],
        decreases va@.len() - i,
    {
        let ca = va[i];
        let cb = vb[i];
        if ca != cb {
            proof {
                lemma_lex_le_skip(a@, b@, i as int);
            }
            return ca < cb;
        }
        i = i + 1;
    }
    proof {
        lemma_lex_le_skip(a@, b@, i as int);
    }
    i == va.len()
}

} // verus!
