use rust_kart::sum_of_products::{split_ascii_whitespace, split_rows};

fn parse(lines: Vec<String>) -> Result<Vec<Vec<f64>>, std::num::ParseFloatError> {
    split_rows(&lines)
        .into_iter()
        .map(|row| row.iter().map(|w| w.parse::<f64>()).collect())
        .collect()
}

#[test]
fn test_parse() {
    let lines = vec!["2 3".to_string(), "4 5".to_string()];
    let result = parse(lines).unwrap();
    assert_eq!(result, vec![vec![2.0, 3.0], vec![4.0, 5.0]]);
}

#[test]
fn test_parse_skips_empty_lines() {
    let lines = vec!["2 3".to_string(), "".to_string(), "4 5".to_string()];
    let result = parse(lines).unwrap();
    assert_eq!(result, vec![vec![2.0, 3.0], vec![4.0, 5.0]]);
}

#[test]
fn words_split_on_any_ascii_whitespace() {
    assert_eq!(split_ascii_whitespace("  1\t2\r\n3  "), vec!["1", "2", "3"]);
    assert_eq!(split_ascii_whitespace(""), Vec::<String>::new());
    assert_eq!(split_ascii_whitespace(" \t "), Vec::<String>::new());
}

#[test]
fn whitespace_only_lines_are_dropped() {
    let lines = vec![" ".to_string(), "7".to_string(), "\t\t".to_string()];
    assert_eq!(split_rows(&lines), vec![vec!["7".to_string()]]);
}

#[test]
fn a_bad_number_is_an_error() {
    let lines = vec!["2 x".to_string()];
    assert!(parse(lines).is_err());
}
