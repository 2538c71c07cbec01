use exercises::district::{count_provinces, parse_district, parse_line, Line};
use exercises::provinces::{count_batch_provinces, provinces_report};

fn lines(text: &[&str]) -> Vec<String> {
    text.iter().map(|l| l.to_string()).collect()
}

fn entry(city: &str, links: &[&str]) -> (String, Vec<String>) {
    (city.to_string(), links.iter().map(|l| l.to_string()).collect())
}

#[test]
fn provinces_per_batch() {
    let file = lines(&[
        "{",
        "  \"1\": {",
        "    \"A\": [\"B\", \"C\"],",
        "    \"D\": [\"E\"],",
        "    \"F\": []",
        "  },",
        "  \"2\": {",
        "    \"A\": [\"B\"],",
        "    \"C\": [\"D\"],",
        "    \"B\": [\"C\"]",
        "  }",
        "}",
    ]);
    assert_eq!(count_provinces(&file), Some("3,1".to_string()));
}

#[test]
fn batches_come_in_name_order() {
    let file = lines(&["\"2\": {", "\"A\": [\"B\"],", "},", "\"10\": {", "\"A\": [],", "\"B\": []", "}"]);
    assert_eq!(count_provinces(&file), Some("2,1".to_string()));
    let data = parse_district(&file).unwrap();
    assert_eq!(data[0].0, "10");
    assert_eq!(data[1].0, "2");
}

#[test]
fn city_before_batch_is_refused() {
    let file = lines(&["\"A\": [\"B\"]", "\"1\": {", "}"]);
    assert_eq!(count_provinces(&file), None);
    assert!(parse_district(&file).is_none());
}

#[test]
fn repeated_city_gathers_links() {
    let file = lines(&["\"1\": {", "\"A\": [\"B\"],", "\"A\": [\"C\"],", "}"]);
    let data = parse_district(&file).unwrap();
    assert_eq!(data.len(), 1);
    assert_eq!(data[0].1, vec![entry("A", &["B", "C"])]);
}

#[test]
fn repeated_batch_starts_over() {
    let file = lines(&["\"1\": {", "\"A\": [\"B\"],", "}", "\"1\": {", "\"C\": []", "}"]);
    let data = parse_district(&file).unwrap();
    assert_eq!(data.len(), 1);
    assert_eq!(data[0].1, vec![entry("C", &[])]);
}

#[test]
fn line_kinds() {
    assert!(matches!(parse_line("  {  "), Line::Skip));
    assert!(matches!(parse_line(""), Line::Skip));
    assert!(matches!(parse_line("  },"), Line::Skip));
    assert!(matches!(parse_line("a:b:c"), Line::Skip));
    match parse_line("\t\"7\": {") {
        Line::Batch(k) => assert_eq!(k, "7"),
        _ => panic!("expected a batch line"),
    }
    match parse_line("  \"X\": [\"Y\", \"Z\"],") {
        Line::City(k, vs) => {
            assert_eq!(k, "X");
            assert_eq!(vs, vec!["Y".to_string(), "Z".to_string()]);
        }
        _ => panic!("expected a city line"),
    }
    match parse_line("\u{3000}\"X\": []\u{3000}") {
        Line::City(k, vs) => {
            assert_eq!(k, "X");
            assert!(vs.is_empty());
        }
        _ => panic!("expected a city line"),
    }
}

#[test]
fn components_of_one_batch() {
    let batch = vec![entry("A", &["B"]), entry("C", &["D"]), entry("E", &[]), entry("D", &["A"])];
    assert_eq!(count_batch_provinces(&batch), 2);
    assert_eq!(count_batch_provinces(&vec![]), 0);
    let named = vec![("x".to_string(), batch), ("y".to_string(), vec![entry("P", &["P"])])];
    assert_eq!(provinces_report(&named), "2,1");
}
