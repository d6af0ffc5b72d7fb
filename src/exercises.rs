use vstd::prelude::*;
use vstd::string::StringExecFns;

verus! {

/// One step of a calculator: an operation together with its operand.
pub enum Action {
    Add(i64),
    Sub(i64),
    Mul(i64),
}

/// The mathematical value of applying `action` to `base`.
pub open spec fn action_value(base: int, action: Action) -> int {
    match action {
        Action::Add(v) => base + v,
        Action::Sub(v) => base - v,
        Action::Mul(v) => base * v,
    }
}

/// Applies `action` to `base`; the result must fit in an `i64`.
pub fn apply_action(base: i64, action: Action) -> (r: i64)
    requires
        i64::MIN <= action_value(base as int, action) <= i64::MAX,
    ensures
        r == action_value(base as int, action),
{
    match action {
        Action::Add(v) => base + v,
        Action::Sub(v) => base - v,
        Action::Mul(v) => base * v,
    }
}

/// The greeting for `name`: `Hello, <name>!`.
pub fn greet(name: &str) -> (r: String)
    ensures
        r@ == "Hello, "@ + name@ + "!"@,
{
    let mut r = String::from_str("Hello, ");
    r.append(name);
    r.append("!");
    r
}

/// What `str::to_uppercase` makes of a sequence of characters.
pub uninterp spec fn uppercase_of(s: Seq<char>) -> Seq<char>;

/// Relies on `str::to_uppercase`: the result depends on the characters of
/// `s` alone, and an empty string stays empty.
#[verifier::external_body]
fn uppercase(s: &str) -> (r: String)
    ensures
        r@ == uppercase_of(s@),
        s@.len() == 0 ==> r@.len() == 0,
{
    s.to_uppercase()
}

/// The name in upper case, taking the name by value.
pub fn loud_name(name: String) -> (r: String)
    ensures
        r@ == uppercase_of(name@),
{
    uppercase(name.as_str())
}

} // verus!
