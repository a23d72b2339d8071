use kvs::{log_file_name, log_file_path, parse_generation, sorted_log_generations, LogSection};
use std::path::PathBuf;

#[test]
fn parses_log_names() {
    assert_eq!(parse_generation("12.log"), Some(12));
    assert_eq!(parse_generation("0.log"), Some(0));
    assert_eq!(parse_generation("007.log"), Some(7));
    assert_eq!(parse_generation("18446744073709551615.log"), Some(u64::MAX));
}

#[test]
fn rejects_other_names() {
    for name in ["+1.log", "-1.log", "a.log", "1.txt", ".log", "1.log.bak", "1", "18446744073709551616.log", "1 .log"] {
        assert_eq!(parse_generation(name), None, "{}", name);
    }
}

#[test]
fn sorts_and_filters_generations() {
    let names: Vec<String> = ["3.log", "1.log", "notes.txt", "10.log", "2.log", "x.log", "01.log"]
        .iter()
        .map(|s| s.to_string())
        .collect();
    assert_eq!(sorted_log_generations(&names), vec![1, 2, 3, 10]);
    assert_eq!(sorted_log_generations(&Vec::new()), Vec::<u64>::new());
}

#[test]
fn names_log_files() {
    assert_eq!(log_file_name(0), "0.log");
    assert_eq!(log_file_name(123), "123.log");
    assert_eq!(log_file_name(u64::MAX), "18446744073709551615.log");
    assert_eq!(log_file_path(&PathBuf::from("dir"), 5), PathBuf::from("dir").join("5.log"));
}

#[test]
fn log_section_spans() {
    let s = LogSection::new(4, 10, 25);
    assert_eq!((s.gen, s.start, s.length), (4, 10, 15));
}

#[test]
fn log_section_from_triple() {
    let s = LogSection::from((2, 5, 9));
    assert_eq!((s.gen, s.start, s.length), (2, 5, 4));
    let e = LogSection::from((2, 9, 5));
    assert_eq!(e.length, 0);
}
