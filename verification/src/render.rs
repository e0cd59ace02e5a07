//! The layout renderer: turns a table into a deterministic sequence of
//! color-tagged text spans.
//!
//! A style with a border template renders as border lines around styled
//! header and data rows; a borderless style renders as a header line and
//! data rows with single-space column separation.  A cell with embedded line
//! breaks is a vertical stack of sub-lines: the row's rendered height is the
//! greatest sub-line count among its cells, and shorter cells are padded
//! with empty sub-lines.  Callers write the spans to a sink in order,
//! applying each span's attributes before its text and resetting them after
//! it.

use vstd::prelude::*;
use crate::style::{Alignment, LineGlyphs, TableStyle, TableStyleConfig, TextColor, spec_config};
use crate::table::{Cell, CellStyle, CellV, Column, ColumnV, Table, TableV, cols_view, row_view, rows_view};
use crate::text::{
    align_chars, append_chars, chars_to_string, lines_chars, opt_glyph, push_opt, push_repeat,
    repeat_char, spaces, spec_align, spec_lines, string_to_chars,
};
use crate::table::spec_cell_display;

verus! {

/// One run of text written with one set of attributes, then reset.
#[derive(Debug, PartialEq, Eq)]
pub struct Span {
    /// The text of the run.
    pub text: String,
    /// Write the run bold.
    pub bold: bool,
    /// Write the run italic.
    pub italic: bool,
    /// Write the run underlined.
    pub underline: bool,
    /// The run's foreground color, if any.
    pub color: Option<TextColor>,
}

/// The mathematical value of a [`Span`].
pub struct SpanV {
    pub text: Seq<char>,
    pub bold: bool,
    pub italic: bool,
    pub underline: bool,
    pub color: Option<TextColor>,
}

impl View for Span {
    type V = SpanV;

    open spec fn view(&self) -> SpanV {
        SpanV {
            text: self.text@,
            bold: self.bold,
            italic: self.italic,
            underline: self.underline,
            color: self.color,
        }
    }
}

/// The mathematical values of a span sequence.
pub open spec fn spans_view(s: Seq<Span>) -> Seq<SpanV> {
    s.map_values(|x: Span| x@)
}

/// A span with no attributes and no color.
pub open spec fn plain_span(text: Seq<char>) -> SpanV {
    SpanV { text, bold: false, italic: false, underline: false, color: None }
}

/// A span with no attributes and the given color.
pub open spec fn colored_span(text: Seq<char>, color: Option<TextColor>) -> SpanV {
    SpanV { text, bold: false, italic: false, underline: false, color }
}

/// A span carrying a cell's attributes and the given color.
pub open spec fn cell_span(text: Seq<char>, style: CellStyle, color: Option<TextColor>) -> SpanV {
    SpanV { text, bold: style.bold, italic: style.italic, underline: style.underline, color }
}

/// A width less the single reserved margin of the borderless layout.
pub open spec fn sub1(w: nat) -> nat {
    if w > 0 {
        (w - 1) as nat
    } else {
        0
    }
}

/// The display text of one cell, split at line breaks.
pub open spec fn cell_lines(c: CellV) -> Seq<Seq<char>> {
    spec_lines(spec_cell_display(c))
}

/// Sub-line `li` of a cell, an empty line beyond the cell's last.
pub open spec fn line_of(c: CellV, li: int) -> Seq<char> {
    if 0 <= li < cell_lines(c).len() {
        cell_lines(c)[li]
    } else {
        Seq::empty()
    }
}

/// The greatest sub-line count among the row's cells.
pub open spec fn max_cell_lines(row: Seq<CellV>) -> int
    decreases row.len(),
{
    if row.len() == 0 {
        0
    } else {
        let rest = max_cell_lines(row.drop_last());
        let cur = cell_lines(row.last()).len() as int;
        if cur > rest {
            cur
        } else {
            rest
        }
    }
}

/// The rendered height of a row: the greatest sub-line count among its
/// cells, and one line for a row with no cells.
pub open spec fn row_height(row: Seq<CellV>) -> int {
    if row.len() == 0 {
        1
    } else {
        max_cell_lines(row)
    }
}

/// The header line of the borderless layout, from column `i` on: each
/// header aligned against its width less one, single spaces between
/// columns, a line break at the end.
pub open spec fn simple_header_from(cols: Seq<ColumnV>, i: int) -> Seq<char>
    decreases cols.len() - i,
{
    if i < 0 || i >= cols.len() {
        seq!['\n']
    } else {
        let sep: Seq<char> = if i < cols.len() - 1 {
            seq![' ']
        } else {
            Seq::empty()
        };
        spec_align(cols[i].header, sub1(cols[i].width), cols[i].alignment) + sep
            + simple_header_from(cols, i + 1)
    }
}

/// One cell's field on one sub-line of the borderless layout: the padding,
/// the aligned text, the padding again.
pub open spec fn simple_cell_text(col: ColumnV, c: CellV, li: int) -> Seq<char> {
    spaces(c.style.padding as nat) + spec_align(line_of(c, li), sub1(col.width), col.alignment)
        + spaces(c.style.padding as nat)
}

/// One sub-line of a borderless row, from column `i` on: each cell's field
/// as an attributed span, a plain space after every cell, a plain line
/// break at the end.
pub open spec fn simple_line_from(cols: Seq<ColumnV>, row: Seq<CellV>, li: int, fg: Option<TextColor>, i: int) -> Seq<SpanV>
    decreases cols.len() - i,
{
    if i < 0 || i >= cols.len() {
        seq![plain_span(seq!['\n'])]
    } else {
        seq![
            cell_span(simple_cell_text(cols[i], row[i], li), row[i].style, fg),
            plain_span(seq![' ']),
        ] + simple_line_from(cols, row, li, fg, i + 1)
    }
}

/// The sub-lines of a borderless row from `li` up to the row's height.
pub open spec fn simple_row_from(cols: Seq<ColumnV>, row: Seq<CellV>, fg: Option<TextColor>, li: int) -> Seq<SpanV>
    decreases row_height(row) - li,
{
    if li < 0 || li >= row_height(row) {
        Seq::empty()
    } else {
        simple_line_from(cols, row, li, fg, 0) + simple_row_from(cols, row, fg, li + 1)
    }
}

/// The borderless rows from row `k` on.
pub open spec fn simple_rows_from(cols: Seq<ColumnV>, rows: Seq<Seq<CellV>>, fg: Option<TextColor>, k: int) -> Seq<SpanV>
    decreases rows.len() - k,
{
    if k < 0 || k >= rows.len() {
        Seq::empty()
    } else {
        simple_row_from(cols, rows[k], fg, 0) + simple_rows_from(cols, rows, fg, k + 1)
    }
}

/// The whole borderless layout: the header line as one span in the header
/// color, then the rows in the row color.
pub open spec fn spec_simple_spans(t: TableV, header_fg: Option<TextColor>, row_fg: Option<TextColor>) -> Seq<SpanV> {
    seq![colored_span(simple_header_from(t.columns, 0), header_fg)] + simple_rows_from(
        t.columns,
        t.rows,
        row_fg,
        0,
    )
}

/// The fill glyph repeated, or nothing when the template has none.
pub open spec fn repeat_opt(g: Option<char>, n: nat) -> Seq<char> {
    match g {
        Some(c) => repeat_char(c, n),
        None => Seq::empty(),
    }
}

/// A border rule's text from column `i` on: the fill repeated over each
/// column's width plus the margin of two, the separator between columns,
/// the end glyph and a line break at the end.
pub open spec fn border_line_from(cols: Seq<ColumnV>, g: LineGlyphs, i: int) -> Seq<char>
    decreases cols.len() - i,
{
    if i < 0 || i >= cols.len() {
        opt_glyph(g.end) + seq!['\n']
    } else {
        let sep: Seq<char> = if i > 0 {
            opt_glyph(g.sep)
        } else {
            Seq::empty()
        };
        sep + repeat_opt(g.hline, cols[i].width + 2) + border_line_from(cols, g, i + 1)
    }
}

/// A border rule as one span in the border color.
pub open spec fn border_line_span(cols: Seq<ColumnV>, g: LineGlyphs, fg: Option<TextColor>) -> SpanV {
    colored_span(opt_glyph(g.begin) + border_line_from(cols, g, 0), fg)
}

/// One cell's field on one sub-line of the bordered layout: a space, the
/// padding, the text aligned against the full column width, the padding,
/// a space.
pub open spec fn styled_cell_text(col: ColumnV, c: CellV, li: int) -> Seq<char> {
    seq![' '] + spaces(c.style.padding as nat) + spec_align(line_of(c, li), col.width, col.alignment)
        + spaces(c.style.padding as nat) + seq![' ']
}

/// One sub-line of a bordered row, from column `i` on: the separator glyph
/// in the border color between columns, each cell's field as an attributed
/// span, the end glyph and a line break at the end.
pub open spec fn styled_line_from(
    cols: Seq<ColumnV>,
    row: Seq<CellV>,
    g: LineGlyphs,
    li: int,
    fg: Option<TextColor>,
    border_fg: Option<TextColor>,
    i: int,
) -> Seq<SpanV>
    decreases cols.len() - i,
{
    if i < 0 || i >= cols.len() {
        seq![colored_span(opt_glyph(g.end) + seq!['\n'], border_fg)]
    } else {
        let sep: Seq<SpanV> = if i > 0 {
            seq![colored_span(opt_glyph(g.sep), border_fg)]
        } else {
            Seq::empty()
        };
        sep + seq![cell_span(styled_cell_text(cols[i], row[i], li), row[i].style, fg)]
            + styled_line_from(cols, row, g, li, fg, border_fg, i + 1)
    }
}

/// The sub-lines of a bordered row from `li` up to the row's height; each
/// sub-line opens with the begin glyph in the border color.
pub open spec fn styled_row_from(
    cols: Seq<ColumnV>,
    row: Seq<CellV>,
    g: LineGlyphs,
    fg: Option<TextColor>,
    border_fg: Option<TextColor>,
    li: int,
) -> Seq<SpanV>
    decreases row_height(row) - li,
{
    if li < 0 || li >= row_height(row) {
        Seq::empty()
    } else {
        seq![colored_span(opt_glyph(g.begin), border_fg)] + styled_line_from(
            cols,
            row,
            g,
            li,
            fg,
            border_fg,
            0,
        ) + styled_row_from(cols, row, g, fg, border_fg, li + 1)
    }
}

/// The bordered rows from row `k` on.
pub open spec fn styled_rows_from(
    cols: Seq<ColumnV>,
    rows: Seq<Seq<CellV>>,
    g: LineGlyphs,
    fg: Option<TextColor>,
    border_fg: Option<TextColor>,
    k: int,
) -> Seq<SpanV>
    decreases rows.len() - k,
{
    if k < 0 || k >= rows.len() {
        Seq::empty()
    } else {
        styled_row_from(cols, rows[k], g, fg, border_fg, 0) + styled_rows_from(
            cols,
            rows,
            g,
            fg,
            border_fg,
            k + 1,
        )
    }
}

/// The header row of the bordered layout: the headers as cells with the
/// default style.
pub open spec fn header_row(cols: Seq<ColumnV>) -> Seq<CellV> {
    Seq::new(
        cols.len(),
        |i: int|
            CellV {
                content: cols[i].header,
                style: CellStyle {
                    bold: false,
                    italic: false,
                    underline: false,
                    padding: 1,
                    decimal_places: None,
                    thousand_separator: false,
                },
            },
    )
}

/// The whole bordered layout: the top rule, the styled header row, the rule
/// below the header, the styled data rows, and the bottom rule.
pub open spec fn spec_styled_spans(t: TableV, cfg: TableStyleConfig) -> Seq<SpanV> {
    seq![border_line_span(t.columns, cfg.top, t.border_color)] + styled_row_from(
        t.columns,
        header_row(t.columns),
        cfg.row,
        t.header_color,
        t.border_color,
        0,
    ) + seq![border_line_span(t.columns, cfg.below_header, t.border_color)] + styled_rows_from(
        t.columns,
        t.rows,
        cfg.row,
        t.row_color,
        t.border_color,
        0,
    ) + seq![border_line_span(t.columns, cfg.bottom, t.border_color)]
}

/// What rendering the table emits: the bordered layout when its style has a
/// border template, the borderless layout otherwise.
pub open spec fn spec_render_spans(t: TableV) -> Seq<SpanV> {
    match spec_config(t.style) {
        Some(cfg) => spec_styled_spans(t, cfg),
        None => spec_simple_spans(t, t.header_color, t.row_color),
    }
}

/// What rendering with color enabled emits: as [`spec_render_spans`], except
/// that the color-accented borderless style paints headers blue and rows
/// white unless the table's override colors say otherwise.
pub open spec fn spec_render_spans_color(t: TableV) -> Seq<SpanV> {
    if t.style == TableStyle::Amiga {
        let hfg = if t.header_color is Some {
            t.header_color
        } else {
            Some(TextColor::Blue)
        };
        let rfg = if t.row_color is Some {
            t.row_color
        } else {
            Some(TextColor::White)
        };
        spec_simple_spans(t, hfg, rfg)
    } else {
        spec_render_spans(t)
    }
}

/// The bytes of a span sequence, colors and attributes set aside.
pub open spec fn spans_text(spans: Seq<SpanV>) -> Seq<char>
    decreases spans.len(),
{
    if spans.len() == 0 {
        Seq::empty()
    } else {
        spans[0].text + spans_text(spans.skip(1))
    }
}

/// Law: rendering is a pure function of the table.  Two renders of one
/// unmodified table produce the same span sequence and byte-identical text,
/// whatever sinks they are written to.
pub proof fn lemma_render_repeatable(t: TableV, s1: Seq<SpanV>, s2: Seq<SpanV>)
    requires
        s1 == spec_render_spans(t),
        s2 == spec_render_spans(t),
    ensures
        s1 == s2,
        spans_text(s1) == spans_text(s2),
{
}

/// The display text of a cell, split into sub-lines.
fn display_lines(c: &Cell) -> (r: Vec<Vec<char>>)
    ensures
        crate::text::deep_chars(r@) == cell_lines(c@),
{
    let chars = string_to_chars(c.content.as_str());
    let shown = crate::numbers::format_display(&chars, c.style.decimal_places, c.style.thousand_separator);
    lines_chars(&shown)
}

/// Sub-line `li` of the cell, aligned to `width`.
fn aligned_line(c: &Cell, li: usize, width: usize, a: Alignment) -> (r: Vec<char>)
    ensures
        r@ == spec_align(line_of(c@, li as int), width as nat, a),
{
    let lines = display_lines(c);
    if li < lines.len() {
        proof {
            assert(crate::text::deep_chars(lines@)[li as int] == lines@[li as int]@);
        }
        align_chars(&lines[li], width, a)
    } else {
        let empty: Vec<char> = Vec::new();
        proof {
            assert(line_of(c@, li as int) =~= Seq::<char>::empty());
        }
        align_chars(&empty, width, a)
    }
}

/// A span from the given text and presentation.
fn make_span(text: Vec<char>, bold: bool, italic: bool, underline: bool, color: Option<TextColor>) -> (r: Span)
    ensures
        r@ == (SpanV { text: text@, bold, italic, underline, color }),
{
    Span { text: chars_to_string(&text), bold, italic, underline, color }
}

/// A width less the reserved margin of the borderless layout.
fn sub1_exec(w: usize) -> (r: usize)
    ensures
        r as nat == sub1(w as nat),
{
    if w > 0 {
        w - 1
    } else {
        0
    }
}

/// The rendered height of a row.
#[verifier::loop_isolation(false)]
fn row_height_exec(row: &Vec<Cell>) -> (h: usize)
    ensures
        h == row_height(row_view(row@)),
{
    if row.len() == 0 {
        1
    } else {
        let mut m: usize = 0;
        let mut i: usize = 0;
        while i < row.len()
            invariant
                i <= row@.len(),
                m == max_cell_lines(row_view(row@).take(i as int)),
            decreases row@.len() - i,
        {
            let lines = display_lines(&row[i]);
            proof {
                assert(crate::text::deep_chars(lines@).len() == lines@.len());
            }
            if lines.len() > m {
                m = lines.len();
            }
            i = i + 1;
            proof {
                let taken = row_view(row@).take(i as int);
                assert(taken.drop_last() =~= row_view(row@).take(i - 1));
                assert(taken.last() == row_view(row@)[i - 1]);
                assert(row_view(row@)[i - 1] == row@[i - 1]@);
            }
        }
        proof {
            assert(row_view(row@).take(row@.len() as int) =~= row_view(row@));
        }
        m
    }
}

/// One cell's field span in the borderless layout.
fn simple_cell_span(col: &Column, c: &Cell, li: usize, fg: Option<TextColor>) -> (r: Span)
    ensures
        r@ == cell_span(simple_cell_text(col@, c@, li as int), c@.style, fg),
{
    let mut buf: Vec<char> = Vec::new();
    push_repeat(&mut buf, ' ', c.style.padding);
    let aligned = aligned_line(c, li, sub1_exec(col.width), col.alignment);
    append_chars(&mut buf, &aligned);
    push_repeat(&mut buf, ' ', c.style.padding);
    proof {
        assert(buf@ =~= simple_cell_text(col@, c@, li as int));
    }
    make_span(buf, c.style.bold, c.style.italic, c.style.underline, fg)
}

/// One sub-line of a borderless row.
#[verifier::loop_isolation(false)]
fn simple_line_spans(cols: &Vec<Column>, row: &Vec<Cell>, li: usize, fg: Option<TextColor>) -> (r: Vec<Span>)
    requires
        row@.len() == cols@.len(),
    ensures
        spans_view(r@) == simple_line_from(cols_view(cols@), row_view(row@), li as int, fg, 0),
{
    let ghost cv = cols_view(cols@);
    let ghost rv = row_view(row@);
    let ghost target = simple_line_from(cv, rv, li as int, fg, 0);
    let mut out: Vec<Span> = Vec::new();
    let mut i: usize = 0;
    proof {
        assert(spans_view(out@) =~= Seq::<SpanV>::empty());
        assert(spans_view(out@) + target =~= target);
    }
    while i < cols.len()
        invariant
            i <= cols@.len(),
            spans_view(out@) + simple_line_from(cv, rv, li as int, fg, i as int) == target,
        decreases cols@.len() - i,
    {
        let ghost out_prev = spans_view(out@);
        let cspan = simple_cell_span(&cols[i], &row[i], li, fg);
        out.push(cspan);
        let mut sp: Vec<char> = Vec::new();
        sp.push(' ');
        let ssp = make_span(sp, false, false, false, None);
        out.push(ssp);
        i = i + 1;
        proof {
            assert(spans_view(out@) =~= out_prev + seq![
                cell_span(simple_cell_text(cv[i - 1], rv[i - 1], li as int), rv[i - 1].style, fg),
                plain_span(seq![' ']),
            ]);
            assert(rv[i - 1].style == row@[i - 1]@.style);
            assert(simple_line_from(cv, rv, li as int, fg, i - 1) == seq![
                cell_span(simple_cell_text(cv[i - 1], rv[i - 1], li as int), rv[i - 1].style, fg),
                plain_span(seq![' ']),
            ] + simple_line_from(cv, rv, li as int, fg, i as int));
            assert(spans_view(out@) + simple_line_from(cv, rv, li as int, fg, i as int) =~= target);
        }
    }
    let ghost out_prev = spans_view(out@);
    let mut nl: Vec<char> = Vec::new();
    nl.push('\n');
    let nsp = make_span(nl, false, false, false, None);
    out.push(nsp);
    proof {
        assert(spans_view(out@) =~= out_prev.push(plain_span(seq!['\n'])));
        assert(simple_line_from(cv, rv, li as int, fg, cols@.len() as int) =~= seq![plain_span(
            seq!['\n'],
        )]);
        assert(spans_view(out@) =~= target);
    }
    out
}

/// All sub-lines of a borderless row.
#[verifier::loop_isolation(false)]
fn simple_row_spans(cols: &Vec<Column>, row: &Vec<Cell>, fg: Option<TextColor>) -> (r: Vec<Span>)
    requires
        row@.len() == cols@.len(),
    ensures
        spans_view(r@) == simple_row_from(cols_view(cols@), row_view(row@), fg, 0),
{
    let ghost cv = cols_view(cols@);
    let ghost rv = row_view(row@);
    let ghost target = simple_row_from(cv, rv, fg, 0);
    let h = row_height_exec(row);
    let mut out: Vec<Span> = Vec::new();
    let mut li: usize = 0;
    proof {
        assert(spans_view(out@) + target =~= target);
    }
    while li < h
        invariant
            li <= h,
            h == row_height(rv),
            spans_view(out@) + simple_row_from(cv, rv, fg, li as int) == target,
        decreases h - li,
    {
        let ghost out_prev = spans_view(out@);
        let mut line = simple_line_spans(cols, row, li, fg);
        let ghost line_v = spans_view(line@);
        out.append(&mut line);
        li = li + 1;
        proof {
            assert(spans_view(out@) =~= out_prev + line_v);
            assert(simple_row_from(cv, rv, fg, li - 1) == simple_line_from(cv, rv, li - 1, fg, 0)
                + simple_row_from(cv, rv, fg, li as int));
            assert(spans_view(out@) + simple_row_from(cv, rv, fg, li as int) =~= target);
        }
    }
    out
}

/// All rows of the borderless layout.
#[verifier::loop_isolation(false)]
fn simple_rows_spans(cols: &Vec<Column>, rows: &Vec<Vec<Cell>>, fg: Option<TextColor>) -> (r: Vec<Span>)
    requires
        forall|q: int| 0 <= q < rows@.len() ==> (#[trigger] rows@[q])@.len() == cols@.len(),
    ensures
        spans_view(r@) == simple_rows_from(cols_view(cols@), rows_view(rows@), fg, 0),
{
    let ghost cv = cols_view(cols@);
    let ghost rsv = rows_view(rows@);
    let ghost target = simple_rows_from(cv, rsv, fg, 0);
    let mut out: Vec<Span> = Vec::new();
    let mut k: usize = 0;
    proof {
        assert(spans_view(out@) + target =~= target);
    }
    while k < rows.len()
        invariant
            k <= rows@.len(),
            spans_view(out@) + simple_rows_from(cv, rsv, fg, k as int) == target,
        decreases rows@.len() - k,
    {
        let ghost out_prev = spans_view(out@);
        proof {
            assert(row_view(rows@[k as int]@).len() == rows@[k as int]@.len());
        }
        let mut rspans = simple_row_spans(cols, &rows[k], fg);
        let ghost rsp_v = spans_view(rspans@);
        out.append(&mut rspans);
        k = k + 1;
        proof {
            assert(rsv[k - 1] == row_view(rows@[k - 1]@));
            assert(spans_view(out@) =~= out_prev + rsp_v);
            assert(simple_rows_from(cv, rsv, fg, k - 1) == simple_row_from(cv, rsv[k - 1], fg, 0)
                + simple_rows_from(cv, rsv, fg, k as int));
            assert(spans_view(out@) + simple_rows_from(cv, rsv, fg, k as int) =~= target);
        }
    }
    out
}

/// The header line of the borderless layout, as text.
#[verifier::loop_isolation(false)]
fn simple_header_chars(cols: &Vec<Column>) -> (r: Vec<char>)
    ensures
        r@ == simple_header_from(cols_view(cols@), 0),
{
    let ghost cv = cols_view(cols@);
    let ghost target = simple_header_from(cv, 0);
    let mut buf: Vec<char> = Vec::new();
    let mut i: usize = 0;
    proof {
        assert(buf@ + target =~= target);
    }
    while i < cols.len()
        invariant
            i <= cols@.len(),
            buf@ + simple_header_from(cv, i as int) == target,
        decreases cols@.len() - i,
    {
        let ghost buf_prev = buf@;
        let col = &cols[i];
        let hdr = string_to_chars(col.header.as_str());
        let aligned = align_chars(&hdr, sub1_exec(col.width), col.alignment);
        append_chars(&mut buf, &aligned);
        if i < cols.len() - 1 {
            buf.push(' ');
        }
        i = i + 1;
        proof {
            let sep: Seq<char> = if i - 1 < cv.len() - 1 {
                seq![' ']
            } else {
                Seq::<char>::empty()
            };
            assert(buf@ =~= buf_prev + spec_align(cv[i - 1].header, sub1(cv[i - 1].width), cv[i - 1].alignment) + sep);
            assert(simple_header_from(cv, i - 1) == spec_align(
                cv[i - 1].header,
                sub1(cv[i - 1].width),
                cv[i - 1].alignment,
            ) + sep + simple_header_from(cv, i as int));
            assert(buf@ + simple_header_from(cv, i as int) =~= target);
        }
    }
    buf.push('\n');
    proof {
        assert(simple_header_from(cv, cols@.len() as int) =~= seq!['\n']);
        assert(buf@ =~= target);
    }
    buf
}

/// A border rule as one span.
#[verifier::loop_isolation(false)]
fn border_rule_span(cols: &Vec<Column>, g: &LineGlyphs, fg: Option<TextColor>) -> (r: Span)
    requires
        forall|q: int| 0 <= q < cols@.len() ==> (#[trigger] cols@[q]).width + 2 <= usize::MAX,
    ensures
        r@ == border_line_span(cols_view(cols@), *g, fg),
{
    let ghost cv = cols_view(cols@);
    let ghost target = opt_glyph(g.begin) + border_line_from(cv, *g, 0);
    let mut buf: Vec<char> = Vec::new();
    push_opt(&mut buf, g.begin);
    let mut i: usize = 0;
    proof {
        assert(buf@ + border_line_from(cv, *g, 0) =~= target);
    }
    while i < cols.len()
        invariant
            i <= cols@.len(),
            buf@ + border_line_from(cv, *g, i as int) == target,
        decreases cols@.len() - i,
    {
        let ghost buf_prev = buf@;
        if i > 0 {
            push_opt(&mut buf, g.sep);
        }
        match g.hline {
            Some(c) => {
                push_repeat(&mut buf, c, cols[i].width + 2);
            },
            None => {},
        }
        i = i + 1;
        proof {
            let sep: Seq<char> = if i - 1 > 0 {
                opt_glyph(g.sep)
            } else {
                Seq::<char>::empty()
            };
            assert(buf@ =~= buf_prev + sep + repeat_opt(g.hline, cv[i - 1].width + 2));
            assert(border_line_from(cv, *g, i - 1) == sep + repeat_opt(g.hline, cv[i - 1].width + 2)
                + border_line_from(cv, *g, i as int));
            assert(buf@ + border_line_from(cv, *g, i as int) =~= target);
        }
    }
    push_opt(&mut buf, g.end);
    buf.push('\n');
    proof {
        assert(border_line_from(cv, *g, cols@.len() as int) =~= opt_glyph(g.end) + seq!['\n']);
        assert(buf@ =~= target);
    }
    make_span(buf, false, false, false, fg)
}

/// One cell's field span in the bordered layout.
fn styled_cell_span(col: &Column, c: &Cell, li: usize, fg: Option<TextColor>) -> (r: Span)
    ensures
        r@ == cell_span(styled_cell_text(col@, c@, li as int), c@.style, fg),
{
    let mut buf: Vec<char> = Vec::new();
    buf.push(' ');
    push_repeat(&mut buf, ' ', c.style.padding);
    let aligned = aligned_line(c, li, col.width, col.alignment);
    append_chars(&mut buf, &aligned);
    push_repeat(&mut buf, ' ', c.style.padding);
    buf.push(' ');
    proof {
        assert(buf@ =~= styled_cell_text(col@, c@, li as int));
    }
    make_span(buf, c.style.bold, c.style.italic, c.style.underline, fg)
}

/// One sub-line of a bordered row, after its begin glyph.
#[verifier::loop_isolation(false)]
fn styled_line_spans(
    cols: &Vec<Column>,
    row: &Vec<Cell>,
    g: &LineGlyphs,
    li: usize,
    fg: Option<TextColor>,
    border_fg: Option<TextColor>,
) -> (r: Vec<Span>)
    requires
        row@.len() == cols@.len(),
    ensures
        spans_view(r@) == styled_line_from(
            cols_view(cols@),
            row_view(row@),
            *g,
            li as int,
            fg,
            border_fg,
            0,
        ),
{
    let ghost cv = cols_view(cols@);
    let ghost rv = row_view(row@);
    let ghost target = styled_line_from(cv, rv, *g, li as int, fg, border_fg, 0);
    let mut out: Vec<Span> = Vec::new();
    let mut i: usize = 0;
    proof {
        assert(spans_view(out@) + target =~= target);
    }
    while i < cols.len()
        invariant
            i <= cols@.len(),
            spans_view(out@) + styled_line_from(cv, rv, *g, li as int, fg, border_fg, i as int)
                == target,
        decreases cols@.len() - i,
    {
        let ghost out_prev = spans_view(out@);
        let ghost sep: Seq<SpanV> = if i > 0 {
            seq![colored_span(opt_glyph(g.sep), border_fg)]
        } else {
            Seq::<SpanV>::empty()
        };
        if i > 0 {
            let mut sbuf: Vec<char> = Vec::new();
            push_opt(&mut sbuf, g.sep);
            let ssp = make_span(sbuf, false, false, false, border_fg);
            out.push(ssp);
        }
        let cspan = styled_cell_span(&cols[i], &row[i], li, fg);
        out.push(cspan);
        i = i + 1;
        proof {
            assert(spans_view(out@) =~= out_prev + sep + seq![
                cell_span(styled_cell_text(cv[i - 1], rv[i - 1], li as int), rv[i - 1].style, fg),
            ]);
            assert(rv[i - 1].style == row@[i - 1]@.style);
            assert(styled_line_from(cv, rv, *g, li as int, fg, border_fg, i - 1) == sep + seq![
                cell_span(styled_cell_text(cv[i - 1], rv[i - 1], li as int), rv[i - 1].style, fg),
            ] + styled_line_from(cv, rv, *g, li as int, fg, border_fg, i as int));
            assert(spans_view(out@) + styled_line_from(cv, rv, *g, li as int, fg, border_fg, i as int)
                =~= target);
        }
    }
    let ghost out_prev = spans_view(out@);
    let mut ebuf: Vec<char> = Vec::new();
    push_opt(&mut ebuf, g.end);
    ebuf.push('\n');
    proof {
        assert(ebuf@ =~= opt_glyph(g.end) + seq!['\n']);
    }
    let esp = make_span(ebuf, false, false, false, border_fg);
    out.push(esp);
    proof {
        assert(spans_view(out@) =~= out_prev.push(colored_span(opt_glyph(g.end) + seq!['\n'], border_fg)));
        assert(styled_line_from(cv, rv, *g, li as int, fg, border_fg, cols@.len() as int)
            =~= seq![colored_span(opt_glyph(g.end) + seq!['\n'], border_fg)]);
        assert(spans_view(out@) =~= target);
    }
    out
}

/// All sub-lines of a bordered row.
#[verifier::loop_isolation(false)]
fn styled_row_spans(
    cols: &Vec<Column>,
    row: &Vec<Cell>,
    g: &LineGlyphs,
    fg: Option<TextColor>,
    border_fg: Option<TextColor>,
) -> (r: Vec<Span>)
    requires
        row@.len() == cols@.len(),
    ensures
        spans_view(r@) == styled_row_from(
            cols_view(cols@),
            row_view(row@),
            *g,
            fg,
            border_fg,
            0,
        ),
{
    let ghost cv = cols_view(cols@);
    let ghost rv = row_view(row@);
    let ghost target = styled_row_from(cv, rv, *g, fg, border_fg, 0);
    let h = row_height_exec(row);
    let mut out: Vec<Span> = Vec::new();
    let mut li: usize = 0;
    proof {
        assert(spans_view(out@) + target =~= target);
    }
    while li < h
        invariant
            li <= h,
            h == row_height(rv),
            spans_view(out@) + styled_row_from(cv, rv, *g, fg, border_fg, li as int) == target,
        decreases h - li,
    {
        let ghost out_prev = spans_view(out@);
        let mut bbuf: Vec<char> = Vec::new();
        push_opt(&mut bbuf, g.begin);
        let bsp = make_span(bbuf, false, false, false, border_fg);
        out.push(bsp);
        let mut line = styled_line_spans(cols, row, g, li, fg, border_fg);
        let ghost line_v = spans_view(line@);
        out.append(&mut line);
        li = li + 1;
        proof {
            assert(spans_view(out@) =~= out_prev + seq![colored_span(opt_glyph(g.begin), border_fg)]
                + line_v);
            assert(styled_row_from(cv, rv, *g, fg, border_fg, li - 1) == seq![colored_span(
                opt_glyph(g.begin),
                border_fg,
            )] + styled_line_from(cv, rv, *g, li - 1, fg, border_fg, 0) + styled_row_from(
                cv,
                rv,
                *g,
                fg,
                border_fg,
                li as int,
            ));
            assert(spans_view(out@) + styled_row_from(cv, rv, *g, fg, border_fg, li as int)
                =~= target);
        }
    }
    out
}

/// All data rows of the bordered layout.
#[verifier::loop_isolation(false)]
fn styled_rows_spans(
    cols: &Vec<Column>,
    rows: &Vec<Vec<Cell>>,
    g: &LineGlyphs,
    fg: Option<TextColor>,
    border_fg: Option<TextColor>,
) -> (r: Vec<Span>)
    requires
        forall|q: int| 0 <= q < rows@.len() ==> (#[trigger] rows@[q])@.len() == cols@.len(),
    ensures
        spans_view(r@) == styled_rows_from(
            cols_view(cols@),
            rows_view(rows@),
            *g,
            fg,
            border_fg,
            0,
        ),
{
    let ghost cv = cols_view(cols@);
    let ghost rsv = rows_view(rows@);
    let ghost target = styled_rows_from(cv, rsv, *g, fg, border_fg, 0);
    let mut out: Vec<Span> = Vec::new();
    let mut k: usize = 0;
    proof {
        assert(spans_view(out@) + target =~= target);
    }
    while k < rows.len()
        invariant
            k <= rows@.len(),
            spans_view(out@) + styled_rows_from(cv, rsv, *g, fg, border_fg, k as int) == target,
        decreases rows@.len() - k,
    {
        let ghost out_prev = spans_view(out@);
        proof {
            assert(row_view(rows@[k as int]@).len() == rows@[k as int]@.len());
        }
        let mut rspans = styled_row_spans(cols, &rows[k], g, fg, border_fg);
        let ghost rsp_v = spans_view(rspans@);
        out.append(&mut rspans);
        k = k + 1;
        proof {
            assert(rsv[k - 1] == row_view(rows@[k - 1]@));
            assert(spans_view(out@) =~= out_prev + rsp_v);
            assert(styled_rows_from(cv, rsv, *g, fg, border_fg, k - 1) == styled_row_from(
                cv,
                rsv[k - 1],
                *g,
                fg,
                border_fg,
                0,
            ) + styled_rows_from(cv, rsv, *g, fg, border_fg, k as int));
            assert(spans_view(out@) + styled_rows_from(cv, rsv, *g, fg, border_fg, k as int)
                =~= target);
        }
    }
    out
}

/// The headers as a row of default-styled cells.
#[verifier::loop_isolation(false)]
fn header_cells(cols: &Vec<Column>) -> (r: Vec<Cell>)
    ensures
        row_view(r@) == header_row(cols_view(cols@)),
        r@.len() == cols@.len(),
{
    let ghost cv = cols_view(cols@);
    let mut out: Vec<Cell> = Vec::new();
    let mut i: usize = 0;
    while i < cols.len()
        invariant
            i <= cols@.len(),
            out@.len() == i,
            row_view(out@) == header_row(cv).take(i as int),
        decreases cols@.len() - i,
    {
        let ghost out_prev = row_view(out@);
        out.push(Cell::new(cols[i].header.as_str()));
        i = i + 1;
        proof {
            assert(row_view(out@) =~= out_prev.push(out@[out@.len() - 1]@));
            assert(header_row(cv).take(i as int) =~= header_row(cv).take(i - 1).push(
                header_row(cv)[i - 1],
            ));
            assert(out@[out@.len() - 1]@ == header_row(cv)[i - 1]);
        }
    }
    proof {
        assert(header_row(cv).take(cv.len() as int) =~= header_row(cv));
    }
    out
}

impl Table {
    /// The table as the borderless layout, with the given header and row
    /// colors.
    fn render_simple(&self, header_fg: Option<TextColor>, row_fg: Option<TextColor>) -> (r: Vec<Span>)
        requires
            self.wf(),
        ensures
            spans_view(r@) == spec_simple_spans(self@, header_fg, row_fg),
    {
        proof {
            assert forall|q: int| 0 <= q < self.rows@.len() implies (#[trigger] self.rows@[q])@.len()
                == self.columns@.len() by {
                assert(self@.rows[q].len() == self@.columns.len());
                assert(row_view(self.rows@[q]@).len() == self.rows@[q]@.len());
            }
        }
        let htext = simple_header_chars(&self.columns);
        let hspan = make_span(htext, false, false, false, header_fg);
        let mut out: Vec<Span> = Vec::new();
        out.push(hspan);
        let mut rest = simple_rows_spans(&self.columns, &self.rows, row_fg);
        let ghost rest_v = spans_view(rest@);
        let ghost h_v = spans_view(out@);
        out.append(&mut rest);
        proof {
            assert(spans_view(out@) =~= h_v + rest_v);
            assert(spans_view(out@) =~= spec_simple_spans(self@, header_fg, row_fg));
        }
        out
    }

    /// The table as the bordered layout of the given template.
    fn render_styled(&self, cfg: &TableStyleConfig) -> (r: Vec<Span>)
        requires
            self.wf(),
            forall|i: int| 0 <= i < self@.columns.len() ==> (#[trigger] self@.columns[i]).width + 2
                <= usize::MAX,
        ensures
            spans_view(r@) == spec_styled_spans(self@, *cfg),
    {
        proof {
            assert forall|q: int| 0 <= q < self.rows@.len() implies (#[trigger] self.rows@[q])@.len()
                == self.columns@.len() by {
                assert(self@.rows[q].len() == self@.columns.len());
                assert(row_view(self.rows@[q]@).len() == self.rows@[q]@.len());
            }
            assert forall|q: int| 0 <= q < self.columns@.len() implies (#[trigger] self.columns@[q]).width
                + 2 <= usize::MAX by {
                assert(self@.columns[q].width + 2 <= usize::MAX);
            }
        }
        let mut out: Vec<Span> = Vec::new();
        out.push(border_rule_span(&self.columns, &cfg.top, self.border_color));
        let ghost p1 = spans_view(out@);
        let hdr = header_cells(&self.columns);
        let mut hspans = styled_row_spans(&self.columns, &hdr, &cfg.row, self.header_color, self.border_color);
        let ghost hs_v = spans_view(hspans@);
        out.append(&mut hspans);
        proof {
            assert(spans_view(out@) =~= p1 + hs_v);
        }
        let ghost p2 = spans_view(out@);
        out.push(border_rule_span(&self.columns, &cfg.below_header, self.border_color));
        let ghost p3 = spans_view(out@);
        let mut rspans = styled_rows_spans(&self.columns, &self.rows, &cfg.row, self.row_color, self.border_color);
        let ghost rs_v = spans_view(rspans@);
        out.append(&mut rspans);
        proof {
            assert(spans_view(out@) =~= p3 + rs_v);
        }
        let ghost p4 = spans_view(out@);
        out.push(border_rule_span(&self.columns, &cfg.bottom, self.border_color));
        proof {
            assert(spans_view(out@) =~= p4.push(border_line_span(self@.columns, cfg.bottom, self@.border_color)));
            assert(p3 =~= p2.push(border_line_span(self@.columns, cfg.below_header, self@.border_color)));
            assert(spans_view(out@) =~= spec_styled_spans(self@, *cfg));
        }
        out
    }

    /// The table rendered as a span sequence: the bordered layout when the
    /// style has a border template, the borderless layout otherwise, as
    /// [`spec_render_spans`] describes.
    pub fn render_spans(&self) -> (r: Vec<Span>)
        requires
            self.wf(),
            spec_config(self@.style) is Some ==> forall|i: int|
                0 <= i < self@.columns.len() ==> (#[trigger] self@.columns[i]).width + 2
                    <= usize::MAX,
        ensures
            spans_view(r@) == spec_render_spans(self@),
    {
        match self.style.config() {
            Some(cfg) => self.render_styled(&cfg),
            None => self.render_simple(self.header_color, self.row_color),
        }
    }

    /// The table rendered with color enabled: the color-accented borderless
    /// style paints headers blue and rows white unless the table's override
    /// colors say otherwise, as [`spec_render_spans_color`] describes.
    pub fn render_spans_color(&self) -> (r: Vec<Span>)
        requires
            self.wf(),
            spec_config(self@.style) is Some ==> forall|i: int|
                0 <= i < self@.columns.len() ==> (#[trigger] self@.columns[i]).width + 2
                    <= usize::MAX,
        ensures
            spans_view(r@) == spec_render_spans_color(self@),
    {
        match self.style {
            TableStyle::Amiga => {
                let hfg = match self.header_color {
                    Some(c) => Some(c),
                    None => Some(TextColor::Blue),
                };
                let rfg = match self.row_color {
                    Some(c) => Some(c),
                    None => Some(TextColor::White),
                };
                self.render_simple(hfg, rfg)
            },
            _ => self.render_spans(),
        }
    }

    /// The rendered text alone, colors and attributes set aside: the
    /// concatenated bytes of [`Table::render_spans`].
    #[verifier::loop_isolation(false)]
    pub fn render_text(&self) -> (r: String)
        requires
            self.wf(),
            spec_config(self@.style) is Some ==> forall|i: int|
                0 <= i < self@.columns.len() ==> (#[trigger] self@.columns[i]).width + 2
                    <= usize::MAX,
        ensures
            r@ == spans_text(spec_render_spans(self@)),
    {
        let spans = self.render_spans();
        let ghost sv = spans_view(spans@);
        let mut buf: Vec<char> = Vec::new();
        let mut i: usize = 0;
        proof {
            assert(sv.skip(0) =~= sv);
            assert(buf@ + spans_text(sv) =~= spans_text(sv));
        }
        while i < spans.len()
            invariant
                i <= spans@.len(),
                buf@ + spans_text(sv.skip(i as int)) == spans_text(sv),
            decreases spans@.len() - i,
        {
            let ghost buf_prev = buf@;
            let chars = string_to_chars(spans[i].text.as_str());
            append_chars(&mut buf, &chars);
            i = i + 1;
            proof {
                let rest = sv.skip(i - 1);
                assert(rest.skip(1) =~= sv.skip(i as int));
                assert(rest[0] == sv[i - 1]);
                assert(sv[i - 1].text == spans@[i - 1]@.text);
                assert(spans_text(rest) == rest[0].text + spans_text(rest.skip(1)));
                assert(buf@ + spans_text(sv.skip(i as int)) =~= spans_text(sv));
            }
        }
        proof {
            assert(sv.skip(sv.len() as int) =~= Seq::<SpanV>::empty());
            assert(buf@ =~= spans_text(sv));
        }
        chars_to_string(&buf)
    }
}

} // verus!
