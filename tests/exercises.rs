use word_freq::exercises::{apply_action, greet, loud_name, Action};

#[test]
fn actions_on_a_base() {
    assert_eq!(apply_action(10, Action::Add(5)), 15);
    assert_eq!(apply_action(10, Action::Sub(5)), 5);
    assert_eq!(apply_action(10, Action::Mul(5)), 50);
    assert_eq!(apply_action(-3, Action::Mul(-4)), 12);
    assert_eq!(apply_action(i64::MAX - 1, Action::Add(1)), i64::MAX);
}

#[test]
fn greeting() {
    assert_eq!(greet("Ada"), "Hello, Ada!");
    assert_eq!(greet(""), "Hello, !");
}

#[test]
fn loud_name_is_upper_case() {
    assert_eq!(loud_name("Ada".to_string()), "ADA");
    assert_eq!(loud_name("straße".to_string()), "STRASSE");
    assert_eq!(loud_name(String::new()), "");
}
