use tabprinter::csv::parse_csv;
use tabprinter::numbers::parse_number;
use tabprinter::{Alignment, Cell, Table, TableStyle};

// Round trip: writing a table's records as CSV and reading them back as a
// new table yields the same content strings in the same order, column
// headers included.
#[test]
fn csv_round_trip_preserves_contents() {
    let mut table = Table::new(TableStyle::Simple);
    table.add_column("Name", 10, Alignment::Left);
    table.add_column("Note", 10, Alignment::Left);
    table.add_row(vec![Cell::new("Alice"), Cell::new("plain")]);
    table.add_row(vec![Cell::new("has,comma"), Cell::new("has \"quote\"")]);
    table.add_row(vec![Cell::new("two\nlines"), Cell::new("")]);
    let text = table.to_csv_string();
    let back = Table::from_csv_str(&text).unwrap();
    assert_eq!(back.columns.len(), table.columns.len());
    for (a, b) in back.columns.iter().zip(table.columns.iter()) {
        assert_eq!(a.header, b.header);
    }
    assert_eq!(back.rows.len(), table.rows.len());
    for (ra, rb) in back.rows.iter().zip(table.rows.iter()) {
        for (ca, cb) in ra.iter().zip(rb.iter()) {
            assert_eq!(ca.content, cb.content);
        }
    }
}

#[test]
fn csv_encoding_quotes_only_when_needed() {
    let mut table = Table::new(TableStyle::Simple);
    table.add_column("A", 5, Alignment::Left);
    table.add_column("B", 5, Alignment::Left);
    table.add_row(vec![Cell::new("plain"), Cell::new("a,b")]);
    let text = table.to_csv_string();
    assert_eq!(text, "A,B\nplain,\"a,b\"\n");
}

#[test]
fn csv_parsing_reads_quoted_fields() {
    let rows = parse_csv("a,\"b,c\"\n\"say \"\"hi\"\"\",d\n").unwrap();
    assert_eq!(
        rows,
        vec![
            vec!["a".to_string(), "b,c".to_string()],
            vec!["say \"hi\"".to_string(), "d".to_string()],
        ]
    );
}

#[test]
fn csv_parsing_rejects_malformed_text() {
    // A stray quote inside an unquoted field.
    assert!(parse_csv("a\"b\n").is_none());
    // An unterminated quoted field.
    assert!(parse_csv("\"abc\n").is_none());
}

#[test]
fn csv_table_rejects_ragged_records() {
    assert!(Table::from_csv_str("A,B\nonly-one\n").is_none());
}

#[test]
fn csv_table_reads_headers_and_rows() {
    let t = Table::from_csv_str("Name,Age\nAlice,30\nBob,25\n").unwrap();
    assert_eq!(t.columns.len(), 2);
    assert_eq!(t.columns[0].header, "Name");
    assert_eq!(t.columns[1].header, "Age");
    assert_eq!(t.columns[0].width, 10);
    assert!(matches!(t.columns[0].alignment, Alignment::Left));
    assert_eq!(t.rows.len(), 2);
    assert_eq!(t.rows[0][0].content, "Alice");
    assert_eq!(t.rows[1][1].content, "25");
}

// Thousands/decimal scenario: two decimal places and grouping.
#[test]
fn thousands_and_decimals_format_exactly() {
    let mut cell = Cell::new("1234567.8910");
    cell.style.decimal_places = Some(2);
    cell.style.thousand_separator = true;
    assert_eq!(cell.formatted_content(), "1,234,567.89");
}

#[test]
fn formatter_returns_non_numbers_unchanged() {
    let mut cell = Cell::new("not a number");
    cell.style.decimal_places = Some(2);
    cell.style.thousand_separator = true;
    assert_eq!(cell.formatted_content(), "not a number");
    let multi = Cell::new("two\nlines");
    assert_eq!(multi.formatted_content(), "two\nlines");
}

#[test]
fn formatter_normalizes_natural_numbers() {
    assert_eq!(Cell::new("007").formatted_content(), "7");
    assert_eq!(Cell::new("1.50").formatted_content(), "1.5");
    assert_eq!(Cell::new("+4").formatted_content(), "4");
    assert_eq!(Cell::new(".5").formatted_content(), "0.5");
    assert_eq!(Cell::new("-0.25").formatted_content(), "-0.25");
}

#[test]
fn formatter_rounds_half_to_even() {
    let mut a = Cell::new("0.125");
    a.style.decimal_places = Some(2);
    assert_eq!(a.formatted_content(), "0.12");
    let mut b = Cell::new("0.135");
    b.style.decimal_places = Some(2);
    assert_eq!(b.formatted_content(), "0.14");
    let mut c = Cell::new("2.5");
    c.style.decimal_places = Some(0);
    assert_eq!(c.formatted_content(), "2");
    let mut d = Cell::new("3.5");
    d.style.decimal_places = Some(0);
    assert_eq!(d.formatted_content(), "4");
    let mut e = Cell::new("9.99");
    e.style.decimal_places = Some(1);
    assert_eq!(e.formatted_content(), "10.0");
}

#[test]
fn formatter_pads_decimal_places_with_zeros() {
    let mut cell = Cell::new("100");
    cell.style.decimal_places = Some(2);
    assert_eq!(cell.formatted_content(), "100.00");
}

#[test]
fn thousands_grouping_leaves_sign_and_fraction_alone() {
    let mut cell = Cell::new("-1234567.5");
    cell.style.thousand_separator = true;
    assert_eq!(cell.formatted_content(), "-1,234,567.5");
    let mut small = Cell::new("-123");
    small.style.thousand_separator = true;
    assert_eq!(small.formatted_content(), "-123");
}

#[test]
fn number_parsing_has_a_closed_grammar() {
    assert!(parse_number("100").is_some());
    assert!(parse_number("-2.5").is_some());
    assert!(parse_number("+.75").is_some());
    assert!(parse_number("").is_none());
    assert!(parse_number(".").is_none());
    assert!(parse_number("1e3").is_none());
    assert!(parse_number("NaN").is_none());
    assert!(parse_number("1.2.3").is_none());
    assert_eq!(parse_number("2").unwrap().units, 2_000_000);
}
