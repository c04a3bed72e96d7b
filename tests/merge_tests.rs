use rate_graph::data_processing::DataPoint;
use rate_graph::merge_datasets::combine_datasets;

fn dp(date: &str, value: i64) -> DataPoint {
    DataPoint { date: String::from(date), value }
}

#[test]
fn test_combine_datasets() {
    let inflation_data = vec![dp("1969-01", 28), dp("1969-02", 56), dp("1969-03", 84)];
    let interest_rate_data = vec![dp("1969-01", 650), dp("1969-02", 652), dp("1969-03", 665)];
    let combined_data = combine_datasets(inflation_data, interest_rate_data);

    assert_eq!(combined_data.len(), 3);
    assert_eq!(combined_data[0].date, "1969-01");
    assert_eq!(combined_data[0].inflation_rate, 28);
    assert_eq!(combined_data[0].interest_rate, 650);

    assert_eq!(combined_data[1].date, "1969-02");
    assert_eq!(combined_data[1].inflation_rate, 56);
    assert_eq!(combined_data[1].interest_rate, 652);

    assert_eq!(combined_data[2].date, "1969-03");
    assert_eq!(combined_data[2].inflation_rate, 84);
    assert_eq!(combined_data[2].interest_rate, 665);
}

#[test]
fn unmatched_inflation_dates_are_dropped() {
    let inflation_data = vec![dp("2000-01", 1), dp("2000-02", 2), dp("2000-03", 3)];
    let interest_rate_data = vec![dp("2000-03", 30), dp("1999-12", 99), dp("2000-01", 10)];
    let combined = combine_datasets(inflation_data, interest_rate_data);
    assert_eq!(combined.len(), 2);
    assert_eq!(combined[0].date, "2000-01");
    assert_eq!(combined[0].interest_rate, 10);
    assert_eq!(combined[1].date, "2000-03");
    assert_eq!(combined[1].inflation_rate, 3);
    assert_eq!(combined[1].interest_rate, 30);
}

#[test]
fn first_matching_rate_wins() {
    let inflation_data = vec![dp("2000-01", 1)];
    let interest_rate_data = vec![dp("2000-01", 10), dp("2000-01", 20)];
    let combined = combine_datasets(inflation_data, interest_rate_data);
    assert_eq!(combined.len(), 1);
    assert_eq!(combined[0].interest_rate, 10);
}

#[test]
fn repeated_inflation_dates_each_give_a_record() {
    let inflation_data = vec![dp("2000-01", 1), dp("2000-01", 2)];
    let interest_rate_data = vec![dp("2000-01", 10)];
    let combined = combine_datasets(inflation_data, interest_rate_data);
    assert_eq!(combined.len(), 2);
    assert_eq!(combined[0].inflation_rate, 1);
    assert_eq!(combined[1].inflation_rate, 2);
    assert_eq!(combined[1].interest_rate, 10);
}

#[test]
fn empty_inputs_give_empty_join() {
    assert!(combine_datasets(Vec::new(), vec![dp("2000-01", 10)]).is_empty());
    assert!(combine_datasets(vec![dp("2000-01", 1)], Vec::new()).is_empty());
}
