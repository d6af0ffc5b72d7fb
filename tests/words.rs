use word_freq::words::{count_words, tokenize, WordCount};

fn strings(v: &[&str]) -> Vec<String> {
    v.iter().map(|s| s.to_string()).collect()
}

fn pairs(r: &[WordCount]) -> Vec<(String, usize)> {
    r.iter().map(|e| (e.word.clone(), e.count)).collect()
}

#[test]
fn tokenize_is_deterministic() {
    let text = "The cat; the DOG, the end.";
    assert_eq!(tokenize(text), tokenize(text));
}

#[test]
fn case_and_boundaries_are_normalized() {
    let toks = tokenize("Hello, hello! HELLO?");
    assert_eq!(toks, strings(&["hello", "hello", "hello"]));
    let table = count_words(&toks);
    assert_eq!(table.count_of("hello"), 3);
    assert_eq!(table.unique(), 1);
    assert_eq!(table.total(), 3);
}

#[test]
fn empty_and_punctuation_give_no_tokens() {
    assert!(tokenize("").is_empty());
    assert!(tokenize("!!! ,,, ???").is_empty());
    let table = count_words(&tokenize(""));
    assert_eq!(table.total(), 0);
    assert_eq!(table.unique(), 0);
    assert!(table.top(3).is_empty());
}

#[test]
fn digits_are_word_characters() {
    assert_eq!(tokenize("route 66-B2"), strings(&["route", "66", "b2"]));
}

#[test]
fn runs_at_both_ends_are_kept() {
    assert_eq!(tokenize("abc"), strings(&["abc"]));
    assert_eq!(tokenize("  Ab  "), strings(&["ab"]));
    assert_eq!(tokenize("x.y"), strings(&["x", "y"]));
}

#[test]
fn non_ascii_letters_are_kept_as_they_are() {
    assert_eq!(tokenize("Émile ÉMILE"), strings(&["Émile", "Émile"]));
    assert_eq!(tokenize("naïve—café"), strings(&["naïve", "café"]));
}

#[test]
fn order_does_not_change_the_table() {
    let a = strings(&["x", "y", "x", "z", "y", "x"]);
    let b = strings(&["y", "x", "z", "x", "x", "y"]);
    let ta = count_words(&a);
    let tb = count_words(&b);
    for w in ["x", "y", "z", "w"] {
        assert_eq!(ta.count_of(w), tb.count_of(w));
    }
    assert_eq!(ta.count_of("x"), 3);
    assert_eq!(ta.unique(), tb.unique());
    assert_eq!(pairs(&ta.top(10)), pairs(&tb.top(10)));
}

#[test]
fn equal_counts_are_ranked_by_word() {
    let table = count_words(&strings(&["b", "a", "b", "a", "c"]));
    assert_eq!(table.count_of("a"), 2);
    assert_eq!(table.count_of("b"), 2);
    assert_eq!(table.count_of("c"), 1);
    assert_eq!(
        pairs(&table.top(3)),
        vec![("a".to_string(), 2), ("b".to_string(), 2), ("c".to_string(), 1)]
    );
}

#[test]
fn fewer_words_than_requested() {
    let table = count_words(&tokenize("a a b"));
    assert_eq!(
        pairs(&table.top(3)),
        vec![("a".to_string(), 2), ("b".to_string(), 1)]
    );
}

#[test]
fn top_keeps_only_the_first_n() {
    let table = count_words(&tokenize("d c c b b b a a a a e"));
    assert_eq!(
        pairs(&table.top(2)),
        vec![("a".to_string(), 4), ("b".to_string(), 3)]
    );
    assert!(table.top(0).is_empty());
}

#[test]
fn prefix_comes_before_longer_word() {
    let table = count_words(&strings(&["ab", "a", "abc", "b"]));
    let words: Vec<String> = table.top(4).into_iter().map(|e| e.word).collect();
    assert_eq!(words, strings(&["a", "ab", "abc", "b"]));
}

#[test]
fn total_equals_token_count() {
    let toks = tokenize("one two two three three three, one!");
    assert_eq!(toks.len(), 7);
    let table = count_words(&toks);
    assert_eq!(table.total(), 7);
    assert_eq!(table.unique(), 3);
}

#[test]
fn count_of_missing_word_is_zero() {
    let table = count_words(&strings(&["a"]));
    assert_eq!(table.count_of("b"), 0);
    assert_eq!(table.count_of(""), 0);
}
