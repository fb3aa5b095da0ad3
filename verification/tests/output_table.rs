use naive_bayes::render::{render_output, u64_to_decimal};
use naive_bayes::NaiveBayesClassifier;

fn row(cells: &[&str]) -> Vec<String> {
    cells.iter().map(|c| c.to_string()).collect()
}

#[test]
fn decimal_formatting_exact_values() {
    assert_eq!(u64_to_decimal(0), "0");
    assert_eq!(u64_to_decimal(7), "7");
    assert_eq!(u64_to_decimal(10), "10");
    assert_eq!(u64_to_decimal(105), "105");
    assert_eq!(u64_to_decimal(u64::MAX), "18446744073709551615");
}

#[test]
fn table_has_header_exactly_once_and_all_rows() {
    let results = vec![
        (1, "Flu".to_string()),
        (2, "Cold".to_string()),
        (3, "Flu".to_string()),
    ];
    let table = render_output(&results);
    assert_eq!(table.len(), 4);
    assert_eq!(table[0], vec!["ID".to_string(), "Disease".to_string()]);
    assert_eq!(table[1], vec!["1".to_string(), "Flu".to_string()]);
    assert_eq!(table[2], vec!["2".to_string(), "Cold".to_string()]);
    assert_eq!(table[3], vec!["3".to_string(), "Flu".to_string()]);
    let headers = table
        .iter()
        .filter(|l| l.first().map(|c| c == "ID").unwrap_or(false))
        .count();
    assert_eq!(headers, 1);
}

#[test]
fn n_queries_give_n_output_rows_in_input_order() {
    let training = vec![row(&["Flu", "Cough"]), row(&["Cold", "Fever"])];
    let m = NaiveBayesClassifier::new(&training).expect("training failed");
    let queries = vec![
        row(&["x", "Fever"]),
        row(&["x", "Cough"]),
        row(&["x"]),
        row(&["x", "Fever"]),
    ];
    let results = m.predict(&queries).expect("prediction failed");
    let table = render_output(&results);
    assert_eq!(table.len(), queries.len() + 1);
    for (i, line) in table.iter().skip(1).enumerate() {
        assert_eq!(line[0], (i + 1).to_string());
    }
    assert_eq!(table[1][1], "Cold");
    assert_eq!(table[2][1], "Flu");
    assert_eq!(table[4][1], "Cold");
}
