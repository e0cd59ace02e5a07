use tabprinter::{Alignment, Cell, Table, TableStyle, TextColor};

fn create_test_table(style: TableStyle) -> Table {
    let mut table = Table::new(style);
    table.add_column("Name", 8, Alignment::Left);
    table.add_column("Age", 5, Alignment::Right);
    table.add_column("City", 13, Alignment::Center);
    table.add_row(vec![
        Cell::new("Alice"),
        Cell::new("30"),
        Cell::new("New York"),
    ]);
    table.add_row(vec![
        Cell::new("Bob"),
        Cell::new("25"),
        Cell::new("Los Angeles"),
    ]);
    table
}

#[test]
fn test_amiga_table_no_crash() {
    let table = create_test_table(TableStyle::Amiga);
    let spans = table.render_spans_color();
    assert!(!spans.is_empty());
}

#[test]
fn test_print_color() {
    let table = create_test_table(TableStyle::Grid);
    let result = table.render_text();
    assert!(!result.is_empty());
}

#[test]
fn test_print_to_writer() {
    let table = create_test_table(TableStyle::Grid);
    let result = table.render_text();
    assert!(!result.is_empty());
}

#[test]
fn test_cell_padding() {
    let mut table = Table::new(TableStyle::Simple);
    table.add_column("Test", 10, Alignment::Left);
    let mut cell = Cell::new("Value");
    cell.style.padding = 2;
    table.add_row(vec![cell]);
    let result = table.render_text();
    assert!(result.contains("  Value  "));
}

#[test]
fn test_number_formatting() {
    let mut table = Table::new(TableStyle::Simple);
    table.add_column("Number", 15, Alignment::Right);
    let mut cell = Cell::new("1234567.8910");
    cell.style.decimal_places = Some(2);
    cell.style.thousand_separator = true;
    table.add_row(vec![cell]);
    let result = table.render_text();
    assert!(result.contains("1,234,567.89"));
}

// Idempotence: rendering the same unmodified table twice yields
// byte-identical output.
#[test]
fn rendering_twice_is_byte_identical() {
    let table = create_test_table(TableStyle::FancyGrid);
    let first = table.render_text();
    let second = table.render_text();
    assert_eq!(first, second);
    let spans1 = table.render_spans();
    let spans2 = table.render_spans();
    assert_eq!(spans1, spans2);
}

// Padding scenario: padding of two puts exactly two spaces on each side of
// the aligned text inside the column field of a bordered style.
#[test]
fn bordered_padding_wraps_aligned_text() {
    let mut table = Table::new(TableStyle::Grid);
    table.add_column("Test", 5, Alignment::Left);
    let mut cell = Cell::new("Value");
    cell.style.padding = 2;
    table.add_row(vec![cell]);
    let result = table.render_text();
    // The field is: space, two padding spaces, "Value" aligned to width 5,
    // two padding spaces, space -- between the border glyphs.
    assert!(result.contains("|   Value   |"));
}

// Style-coverage scenario: every style renders a 2-column, 2-row table
// without error, with non-empty output holding each distinct non-empty
// border glyph of that style.
#[test]
fn every_style_renders_with_its_glyphs() {
    let cases: Vec<(TableStyle, Vec<&str>)> = vec![
        (TableStyle::Simple, vec![]),
        (TableStyle::Grid, vec!["+", "-", "|"]),
        (TableStyle::FancyGrid, vec!["╒", "═", "╤", "╕", "╞", "╪", "╡", "╘", "╧", "╛", "│"]),
        (TableStyle::Clean, vec!["─"]),
        (TableStyle::Round, vec!["╭", "─", "┬", "╮", "├", "┼", "┤", "╰", "┴", "╯", "│"]),
        (TableStyle::Banner, vec!["╒", "═", "╤", "╕", "╘", "╧", "╛", "│"]),
        (TableStyle::Block, vec!["◢", "■", "◣", "━", "◥", "◤"]),
        (TableStyle::Amiga, vec![]),
        (TableStyle::Minimal, vec!["┌", "─", "┬", "┐", "├", "┼", "┤", "└", "┴", "┘", "│"]),
        (TableStyle::Compact, vec!["┌", "─", "┬", "┐", "├", "┼", "┤", "└", "┴", "┘", "│"]),
        (TableStyle::Markdown, vec!["|", "-"]),
        (TableStyle::Dotted, vec![".", ":", "'"]),
        (TableStyle::Heavy, vec!["┏", "━", "┳", "┓", "┣", "╋", "┫", "┗", "┻", "┛", "┃"]),
        (TableStyle::Neon, vec!["┏", "━", "┳", "┓", "┣", "╋", "┫", "┗", "┻", "┛", "┃"]),
    ];
    for (style, glyphs) in cases {
        let mut table = Table::new(style);
        table.add_column("Left", 6, Alignment::Left);
        table.add_column("Right", 6, Alignment::Right);
        table.add_row(vec![Cell::new("a"), Cell::new("1")]);
        table.add_row(vec![Cell::new("b"), Cell::new("2")]);
        let out = table.render_text();
        assert!(!out.is_empty(), "style {:?} rendered nothing", style);
        for glyph in glyphs {
            assert!(out.contains(glyph), "style {:?} output misses {:?}", style, glyph);
        }
    }
}

// The markdown style emits a pipe-delimited table: header row, dash
// separator row, then data rows.
#[test]
fn markdown_output_is_pipe_delimited() {
    let mut table = Table::new(TableStyle::Markdown);
    table.add_column("A", 3, Alignment::Left);
    table.add_column("B", 3, Alignment::Left);
    table.add_row(vec![Cell::new("x"), Cell::new("y")]);
    let out = table.render_text();
    let lines: Vec<&str> = out.lines().collect();
    // Blank top rule, header row, dash rule, data row, blank bottom rule.
    assert_eq!(lines.len(), 5);
    assert!(lines[1].starts_with('|') && lines[1].ends_with('|'));
    assert!(lines[2].starts_with('|') && lines[2].ends_with('|'));
    assert!(lines[2].contains('-'));
    assert!(lines[3].starts_with('|') && lines[3].ends_with('|'));
}

// A cell with embedded line breaks renders as stacked sub-lines; shorter
// cells are padded with empty sub-lines.
#[test]
fn multi_line_cells_stack_sub_lines() {
    let mut table = Table::new(TableStyle::Simple);
    table.add_column("A", 6, Alignment::Left);
    table.add_column("B", 6, Alignment::Left);
    table.add_row(vec![Cell::new("one\ntwo"), Cell::new("solo")]);
    let out = table.render_text();
    let lines: Vec<&str> = out.lines().collect();
    // Header line plus two sub-lines for the one row.
    assert_eq!(lines.len(), 3);
    assert!(lines[1].contains("one"));
    assert!(lines[1].contains("solo"));
    assert!(lines[2].contains("two"));
    assert!(!lines[2].contains("solo"));
}

// The amiga style paints headers blue and rows white when color is on, and
// the table's override colors win when set.
#[test]
fn amiga_colors_and_overrides() {
    let table = create_test_table(TableStyle::Amiga);
    let spans = table.render_spans_color();
    assert_eq!(spans[0].color, Some(TextColor::Blue));
    // Cell spans carry the row color; the separator and line-break spans
    // between them stay plain.
    assert!(spans[1..]
        .iter()
        .all(|s| s.color == Some(TextColor::White)
            || (s.color.is_none() && (s.text == " " || s.text == "\n"))));
    assert!(spans[1..].iter().any(|s| s.color == Some(TextColor::White)));

    let mut custom = create_test_table(TableStyle::Amiga);
    custom.header_color = Some(TextColor::Green);
    let spans = custom.render_spans_color();
    assert_eq!(spans[0].color, Some(TextColor::Green));

    // Without color, the amiga style renders like the plain layout.
    let plain = table.render_spans();
    assert!(plain.iter().all(|s| s.color.is_none()));
}

// Centering splits padding deterministically, odd space to the right.
#[test]
fn centering_puts_odd_space_right() {
    let mut table = Table::new(TableStyle::Simple);
    table.add_column("Head", 7, Alignment::Center);
    table.add_row(vec![Cell::new("ab")]);
    let out = table.render_text();
    let lines: Vec<&str> = out.lines().collect();
    // Width is 7, alignment field is width - 1 = 6: "ab" gets 2 left, 2
    // right; with the default padding of 1 on each side.
    assert!(lines[1].contains(" ab  "));
}

// A table with no rows still renders its header (and borders, when styled).
#[test]
fn empty_table_renders_header_only() {
    let mut table = Table::new(TableStyle::Simple);
    table.add_column("Only", 6, Alignment::Left);
    let out = table.render_text();
    assert_eq!(out.lines().count(), 1);
    assert!(out.contains("Only"));

    let mut bordered = Table::new(TableStyle::Grid);
    bordered.add_column("Only", 6, Alignment::Left);
    let out = bordered.render_text();
    // Top rule, header row, rule below the header, bottom rule.
    assert_eq!(out.lines().count(), 4);
}

// Per-table override colors reach the header, row, and border spans.
#[test]
fn override_colors_reach_their_spans() {
    let mut table = Table::new(TableStyle::Grid);
    table.add_column("A", 4, Alignment::Left);
    table.add_row(vec![Cell::new("x")]);
    table.header_color = Some(TextColor::Yellow);
    table.row_color = Some(TextColor::Cyan);
    table.border_color = Some(TextColor::Rgb(1, 2, 3));
    let spans = table.render_spans();
    assert!(spans.iter().any(|s| s.color == Some(TextColor::Yellow)));
    assert!(spans.iter().any(|s| s.color == Some(TextColor::Cyan)));
    assert!(spans.iter().any(|s| s.color == Some(TextColor::Rgb(1, 2, 3))));
}

// Cell attributes reach the rendered spans of that cell alone.
#[test]
fn cell_attributes_reach_their_span() {
    let mut table = Table::new(TableStyle::Simple);
    table.add_column("A", 6, Alignment::Left);
    let mut cell = Cell::new("loud");
    cell.style.bold = true;
    cell.style.underline = true;
    table.add_row(vec![cell]);
    let spans = table.render_spans();
    let loud: Vec<_> = spans.iter().filter(|s| s.text.contains("loud")).collect();
    assert_eq!(loud.len(), 1);
    assert!(loud[0].bold && loud[0].underline && !loud[0].italic);
    assert!(spans.iter().filter(|s| !s.text.contains("loud")).all(|s| !s.bold));
}
