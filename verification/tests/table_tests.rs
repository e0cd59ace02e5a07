use tabprinter::{Alignment, Cell, CellStyle, Table, TableError, TableStyle};

fn create_test_table(style: TableStyle) -> Table {
    let mut table = Table::new(style);
    table.add_column("Name", 8, Alignment::Left);
    table.add_column("Age", 5, Alignment::Right);
    table.add_column("City", 13, Alignment::Center);
    table.add_row(vec![
        Cell::new("Alice"),
        Cell::new("30"),
        Cell::new("New York"),
    ]);
    table.add_row(vec![
        Cell::new("Bob"),
        Cell::new("25"),
        Cell::new("Los Angeles"),
    ]);
    table
}

#[test]
fn test_add_column() {
    let mut table = Table::new(TableStyle::Simple);
    table.add_column("Test", 10, Alignment::Left);
    assert_eq!(table.columns.len(), 1);
    assert_eq!(table.columns[0].header, "Test");
    assert_eq!(table.columns[0].width, 10);
    assert!(matches!(table.columns[0].alignment, Alignment::Left));
}

#[test]
fn test_add_row() {
    let mut table = Table::new(TableStyle::Simple);
    table.add_column("Test", 10, Alignment::Left);
    table.add_row(vec![Cell::new("Value")]);
    assert_eq!(table.rows.len(), 1);
    assert_eq!(table.rows[0][0].content, "Value");
}

#[test]
fn test_auto_adjust_widths() {
    let mut table = create_test_table(TableStyle::Simple);
    table.auto_adjust_widths();
    assert!(table.columns.iter().all(|col| col.width > 0));
}

#[test]
fn test_sort_by_column() {
    let mut table = create_test_table(TableStyle::Simple);
    table.sort_by_column(1, true); // Sort by Age in ascending order
    assert_eq!(table.rows[0][1].content, "25");
    assert_eq!(table.rows[1][1].content, "30");
}

#[test]
fn test_filter_rows() {
    let table = create_test_table(TableStyle::Simple);
    let filtered = table.filter_rows(|row| row[1].content == "30"); // Filter rows where Age is 30
    assert_eq!(filtered.rows.len(), 1);
    assert_eq!(filtered.rows[0][1].content, "30");
}

#[test]
fn test_cell_style_default() {
    let style = CellStyle::new();
    assert!(!style.bold);
    assert!(!style.italic);
    assert!(!style.underline);
    assert_eq!(style.padding, 1);
}

#[test]
fn test_group_by_column_with_subtotals() {
    let mut table = Table::new(TableStyle::Simple);
    table.add_column("Category", 10, Alignment::Left);
    table.add_column("Amount", 10, Alignment::Right);
    table.add_row(vec![Cell::new("A"), Cell::new("100")]);
    table.add_row(vec![Cell::new("A"), Cell::new("200")]);
    table.add_row(vec![Cell::new("B"), Cell::new("300")]);
    table.add_row(vec![Cell::new("B"), Cell::new("400")]);
    table.group_by_column_with_subtotals(0);
    let result = table.render_text();
    assert!(result.contains("Subtotal"));
    assert!(result.contains("300"));
    assert!(result.contains("700"));
}

// Grouping scenario: maximal consecutive runs in the grouping column, each
// followed by a subtotal row holding the run's exact sum.
#[test]
fn grouping_inserts_subtotals_after_each_run() {
    let mut table = Table::new(TableStyle::Simple);
    table.add_column("Category", 10, Alignment::Left);
    table.add_column("Amount", 10, Alignment::Right);
    table.add_row(vec![Cell::new("A"), Cell::new("100")]);
    table.add_row(vec![Cell::new("A"), Cell::new("200")]);
    table.add_row(vec![Cell::new("B"), Cell::new("300")]);
    table.add_row(vec![Cell::new("B"), Cell::new("400")]);
    table.group_by_column_with_subtotals(0);
    let contents: Vec<Vec<&str>> = table
        .rows
        .iter()
        .map(|r| r.iter().map(|c| c.content.as_str()).collect())
        .collect();
    assert_eq!(
        contents,
        vec![
            vec!["A", "100"],
            vec!["A", "200"],
            vec!["Subtotal", "300"],
            vec!["B", "300"],
            vec!["B", "400"],
            vec!["Subtotal", "700"],
        ]
    );
}

// A run with an unparsable cell gets an empty subtotal in that column.
#[test]
fn grouping_leaves_unparsable_columns_empty() {
    let mut table = Table::new(TableStyle::Simple);
    table.add_column("Key", 5, Alignment::Left);
    table.add_column("Note", 8, Alignment::Left);
    table.add_row(vec![Cell::new("A"), Cell::new("hello")]);
    table.add_row(vec![Cell::new("A"), Cell::new("7")]);
    table.group_by_column_with_subtotals(0);
    assert_eq!(table.rows[2][0].content, "Subtotal");
    assert_eq!(table.rows[2][1].content, "");
}

// Mismatch scenario: a row of the wrong length is rejected with the
// structural-violation signal and leaves the table untouched.
#[test]
fn mismatched_row_is_rejected_and_table_unchanged() {
    let mut table = Table::new(TableStyle::Simple);
    table.add_column("Test", 10, Alignment::Left);
    let result = table.try_add_row(vec![Cell::new("Value1"), Cell::new("Value2")]);
    assert_eq!(result, Err(TableError::RowLengthMismatch));
    assert_eq!(table.rows.len(), 0);
}

#[test]
fn sort_descending_reverses_order() {
    let mut table = create_test_table(TableStyle::Simple);
    table.sort_by_column(0, false);
    assert_eq!(table.rows[0][0].content, "Bob");
    assert_eq!(table.rows[1][0].content, "Alice");
}

#[test]
fn filter_keeps_columns_and_style() {
    let table = create_test_table(TableStyle::Grid);
    let filtered = table.filter_rows(|_| false);
    assert_eq!(filtered.rows.len(), 0);
    assert_eq!(filtered.columns.len(), 3);
    assert_eq!(filtered.columns[0].header, "Name");
    assert!(matches!(filtered.style, TableStyle::Grid));
}

#[test]
fn auto_adjust_uses_longest_content_plus_margin() {
    let mut table = Table::new(TableStyle::Simple);
    table.add_column("Hi", 1, Alignment::Left);
    table.add_row(vec![Cell::new("longtext")]);
    table.add_row(vec![Cell::new("x")]);
    table.auto_adjust_widths();
    // max("Hi".len(), "longtext".len()) + 2
    assert_eq!(table.columns[0].width, 10);
}

#[test]
fn cell_lines_split_at_line_breaks() {
    let cell = Cell::new("one\ntwo");
    assert_eq!(cell.lines(), vec!["one".to_string(), "two".to_string()]);
    let single = Cell::new("plain");
    assert_eq!(single.lines(), vec!["plain".to_string()]);
    let empty = Cell::new("");
    assert_eq!(empty.lines(), Vec::<String>::new());
}

// Sorting with equal keys keeps the same multiset of rows.
#[test]
fn sort_with_equal_keys_keeps_all_rows() {
    let mut table = Table::new(TableStyle::Simple);
    table.add_column("K", 4, Alignment::Left);
    table.add_column("V", 4, Alignment::Left);
    table.add_row(vec![Cell::new("b"), Cell::new("1")]);
    table.add_row(vec![Cell::new("a"), Cell::new("2")]);
    table.add_row(vec![Cell::new("a"), Cell::new("3")]);
    table.sort_by_column(0, true);
    assert_eq!(table.rows.len(), 3);
    assert_eq!(table.rows[0][0].content, "a");
    assert_eq!(table.rows[1][0].content, "a");
    assert_eq!(table.rows[2][0].content, "b");
    let mut values: Vec<&str> = table.rows.iter().map(|r| r[1].content.as_str()).collect();
    values.sort();
    assert_eq!(values, vec!["1", "2", "3"]);
}
