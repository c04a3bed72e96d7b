use rate_graph::data_processing::{
    parse_hundredths, read_inflation_data, read_interest_rate_data, series_from_table,
};
use rate_graph::error::RateError;

#[test]
fn test_read_inflation_data() {
    let text = "TIME,Value\n1969-01,0.2816902\n1969-02,0.5617977\n";
    let result = read_inflation_data(text.as_bytes());
    assert!(result.is_ok());
    let data_points = result.unwrap();
    assert_eq!(data_points.len(), 2);
    assert_eq!(data_points[0].date, "1969-01");
    assert_eq!(data_points[0].value, 28);
    assert_eq!(data_points[1].date, "1969-02");
    assert_eq!(data_points[1].value, 56);
}

#[test]
fn columns_are_found_by_name() {
    let text = "LOCATION,Value,TIME\nUSA,6.5,1969-01\nUSA,6.524,1969-02";
    let data_points = read_interest_rate_data(text.as_bytes()).unwrap();
    assert_eq!(data_points.len(), 2);
    assert_eq!(data_points[0].date, "1969-01");
    assert_eq!(data_points[0].value, 650);
    assert_eq!(data_points[1].date, "1969-02");
    assert_eq!(data_points[1].value, 652);
}

#[test]
fn header_only_gives_empty_series() {
    assert_eq!(read_inflation_data("TIME,Value\n".as_bytes()).unwrap().len(), 0);
    assert_eq!(read_inflation_data("".as_bytes()).unwrap().len(), 0);
}

#[test]
fn missing_column_is_malformed() {
    let text = "TIME,Rate\n1969-01,0.5\n";
    assert_eq!(read_inflation_data(text.as_bytes()).err(), Some(RateError::MalformedRecord));
}

#[test]
fn non_numeric_value_fails_whole_load() {
    let text = "TIME,Value\n1969-01,0.5\n1969-02,n/a\n1969-03,0.7\n";
    assert_eq!(read_inflation_data(text.as_bytes()).err(), Some(RateError::MalformedRecord));
}

#[test]
fn ragged_rows_are_malformed() {
    let text = "TIME,Value\n1969-01\n";
    assert_eq!(read_inflation_data(text.as_bytes()).err(), Some(RateError::MalformedRecord));
}

#[test]
fn rounding_to_hundredths() {
    assert_eq!(parse_hundredths("0.2816902"), Ok(28));
    assert_eq!(parse_hundredths("0.5617977"), Ok(56));
    assert_eq!(parse_hundredths("0.125"), Ok(13));
    assert_eq!(parse_hundredths("0.124"), Ok(12));
    assert_eq!(parse_hundredths("-0.125"), Ok(-13));
    assert_eq!(parse_hundredths("-1.5"), Ok(-150));
    assert_eq!(parse_hundredths("+2"), Ok(200));
    assert_eq!(parse_hundredths("5."), Ok(500));
    assert_eq!(parse_hundredths(".5"), Ok(50));
    assert_eq!(parse_hundredths("6.995"), Ok(700));
    assert_eq!(parse_hundredths("-0.001"), Ok(0));
}

#[test]
fn rounding_keeps_two_decimal_values() {
    assert_eq!(parse_hundredths("0.28"), Ok(28));
    assert_eq!(parse_hundredths("6.52"), Ok(652));
    assert_eq!(parse_hundredths("6.5"), Ok(650));
    assert_eq!(parse_hundredths("-0.06"), Ok(-6));
    assert_eq!(parse_hundredths("0.280"), Ok(28));
}

#[test]
fn rejects_what_is_no_decimal() {
    for text in
        ["", ".", "-", "+", "abc", "1.2.3", " 1", "1,5", "--1", "0x10", "1e", "1e+", "e5", "1e2.5", ".e1"]
    {
        assert_eq!(parse_hundredths(text), Err(RateError::MalformedRecord), "{}", text);
    }
}

#[test]
fn range_limits() {
    assert_eq!(parse_hundredths("92233720368547758.07"), Ok(i64::MAX));
    assert_eq!(parse_hundredths("-92233720368547758.07"), Ok(-i64::MAX));
    assert_eq!(parse_hundredths("92233720368547758.074"), Ok(i64::MAX));
    assert_eq!(parse_hundredths("92233720368547758.075"), Err(RateError::MalformedRecord));
    assert_eq!(parse_hundredths("92233720368547758.08"), Err(RateError::MalformedRecord));
    assert_eq!(parse_hundredths("99999999999999999999"), Err(RateError::MalformedRecord));
    assert_eq!(parse_hundredths("21474836.48"), Ok(2147483648));
}

#[test]
fn exponents_are_read() {
    assert_eq!(parse_hundredths("1e2"), Ok(10000));
    assert_eq!(parse_hundredths("1E+2"), Ok(10000));
    assert_eq!(parse_hundredths("2.5E-1"), Ok(25));
    assert_eq!(parse_hundredths("12.345e1"), Ok(12345));
    assert_eq!(parse_hundredths("1e-3"), Ok(0));
    assert_eq!(parse_hundredths("5e-3"), Ok(1));
    assert_eq!(parse_hundredths("-5e-3"), Ok(-1));
    assert_eq!(parse_hundredths("-0.5e0"), Ok(-50));
    assert_eq!(parse_hundredths("0e999999999999999999999999"), Ok(0));
    assert_eq!(parse_hundredths("1e-999999999999999999999999"), Ok(0));
    assert_eq!(parse_hundredths("1e999999999999999999999999"), Err(RateError::MalformedRecord));
    assert_eq!(parse_hundredths("1e17"), Err(RateError::MalformedRecord));
    assert_eq!(parse_hundredths("1e16"), Ok(1_000_000_000_000_000_000));
}

#[test]
fn exponent_rows_load() {
    let text = "TIME,Value\n1969-01,1e2\n1969-02,2.816902E-1\n";
    let data_points = read_inflation_data(text.as_bytes()).unwrap();
    assert_eq!(data_points.len(), 2);
    assert_eq!(data_points[0].value, 10000);
    assert_eq!(data_points[1].value, 28);
}

#[test]
fn series_from_table_reads_named_columns() {
    let table: Vec<Vec<String>> = vec![
        vec![String::from("Value"), String::from("TIME")],
        vec![String::from("0.5617977"), String::from("1969-02")],
        vec![String::from("-0.004"), String::from("1969-03")],
    ];
    let data_points = series_from_table(&table).unwrap();
    assert_eq!(data_points.len(), 2);
    assert_eq!(data_points[0].date, "1969-02");
    assert_eq!(data_points[0].value, 56);
    assert_eq!(data_points[1].date, "1969-03");
    assert_eq!(data_points[1].value, 0);

    let short: Vec<Vec<String>> =
        vec![vec![String::from("TIME"), String::from("Value")], vec![String::from("1969-01")]];
    assert_eq!(series_from_table(&short).err(), Some(RateError::MalformedRecord));
}
