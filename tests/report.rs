use word_freq::report::{report, summarize, RunError};

#[test]
fn empty_input_reports_no_words() {
    assert_eq!(summarize("", 3).unwrap_err(), RunError::EmptyResult);
    assert_eq!(summarize("!!! ,,, ???", 3).unwrap_err(), RunError::EmptyResult);
    assert_eq!(report("", 3), vec!["No words found".to_string()]);
    assert_eq!(report("!!! ,,, ???", 3), vec!["No words found".to_string()]);
}

#[test]
fn error_messages() {
    assert_eq!(RunError::SourceUnavailable.message(), "Failed to read input");
    assert_eq!(RunError::EmptyResult.message(), "No words found");
}

#[test]
fn summary_of_a_text() {
    let s = summarize("Hello, hello! HELLO? world", 3).unwrap();
    assert_eq!(s.total, 4);
    assert_eq!(s.unique, 2);
    assert_eq!(s.top.len(), 2);
    assert_eq!(s.top[0].word, "hello");
    assert_eq!(s.top[0].count, 3);
    assert_eq!(s.top[1].word, "world");
    assert_eq!(s.top[1].count, 1);
}

#[test]
fn report_lines_in_order() {
    assert_eq!(
        report("b a b a c", 3),
        vec![
            "Total words: 5, Unique words: 3".to_string(),
            "a: 2".to_string(),
            "b: 2".to_string(),
            "c: 1".to_string(),
        ]
    );
}

#[test]
fn report_with_fewer_words_than_requested() {
    assert_eq!(
        report("a a b", 3),
        vec![
            "Total words: 3, Unique words: 2".to_string(),
            "a: 2".to_string(),
            "b: 1".to_string(),
        ]
    );
}

#[test]
fn report_writes_multi_digit_numbers() {
    let text = "w ".repeat(120) + "v v";
    assert_eq!(
        report(&text, 1),
        vec!["Total words: 122, Unique words: 2".to_string(), "w: 120".to_string()]
    );
}

#[test]
fn report_with_zero_entries_requested() {
    assert_eq!(
        report("x y", 0),
        vec!["Total words: 2, Unique words: 2".to_string()]
    );
}
