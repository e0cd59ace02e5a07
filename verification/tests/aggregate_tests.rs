use tabprinter::{AggregateOp, Alignment, Cell, Fixed, Table, TableStyle};

fn amount_table(values: &[&str]) -> Table {
    let mut table = Table::new(TableStyle::Simple);
    table.add_column("Amount", 10, Alignment::Right);
    for v in values {
        table.add_row(vec![Cell::new(v)]);
    }
    table
}

#[test]
fn test_sum_column() {
    let table = amount_table(&["100", "200", "300"]);
    assert_eq!(table.sum_column(0).unwrap().to_decimal_string(), "600");
}

#[test]
fn test_average_column() {
    let table = amount_table(&["100", "200", "300"]);
    assert_eq!(table.average_column(0).unwrap().to_decimal_string(), "200");
}

#[test]
fn test_min_column() {
    let table = amount_table(&["100", "200", "300"]);
    assert_eq!(table.min_column(0).unwrap().to_decimal_string(), "100");
}

#[test]
fn test_max_column() {
    let table = amount_table(&["100", "200", "300"]);
    assert_eq!(table.max_column(0).unwrap().to_decimal_string(), "300");
}

// Sum and average are present together, and the sum equals the average
// times the count to within one fixed-point unit per value.
#[test]
fn sum_is_average_times_count_within_tolerance() {
    let table = amount_table(&["100", "200", "250"]);
    let sum = table.sum_column(0).unwrap();
    let avg = table.average_column(0).unwrap();
    assert_eq!(sum.to_decimal_string(), "550");
    assert_eq!(avg.to_decimal_string(), "183.333333");
    let diff = sum.units - avg.units * 3;
    assert!(-3 < diff && diff < 3);
}

// Minimum never exceeds maximum when both are present.
#[test]
fn min_is_at_most_max() {
    let table = amount_table(&["-2.5", "10", "3.75"]);
    let mn = table.min_column(0).unwrap();
    let mx = table.max_column(0).unwrap();
    assert!(mn.units <= mx.units);
    assert_eq!(mn.to_decimal_string(), "-2.5");
    assert_eq!(mx, Fixed::from_int(10));
}

// A column with no parsable value yields an absent result for every
// reduction, not zero and not an error.
#[test]
fn empty_aggregation_is_absent() {
    let table = amount_table(&["alpha", "beta"]);
    assert!(table.sum_column(0).is_none());
    assert!(table.average_column(0).is_none());
    assert!(table.min_column(0).is_none());
    assert!(table.max_column(0).is_none());
    let empty = amount_table(&[]);
    assert!(empty.sum_column(0).is_none());
}

// Unparsable cells are skipped silently, not treated as zero.
#[test]
fn unparsable_cells_are_skipped() {
    let table = amount_table(&["10", "n/a", "20"]);
    assert_eq!(table.sum_column(0).unwrap().to_decimal_string(), "30");
    assert_eq!(table.average_column(0).unwrap().to_decimal_string(), "15");
}

#[test]
fn aggregate_column_takes_the_operation() {
    let table = amount_table(&["1.5", "2.25"]);
    let sum = table.aggregate_column(0, AggregateOp::Sum).unwrap();
    assert_eq!(sum.to_decimal_string(), "3.75");
    let mn = table.aggregate_column(0, AggregateOp::Min).unwrap();
    assert_eq!(mn.to_decimal_string(), "1.5");
    let mx = table.aggregate_column(0, AggregateOp::Max).unwrap();
    assert_eq!(mx.to_decimal_string(), "2.25");
    let avg = table.aggregate_column(0, AggregateOp::Average).unwrap();
    assert_eq!(avg.to_decimal_string(), "1.875");
}

// Fractions survive aggregation exactly.
#[test]
fn sums_are_exact_over_decimals() {
    let table = amount_table(&["0.1", "0.2"]);
    assert_eq!(table.sum_column(0).unwrap().to_decimal_string(), "0.3");
}
