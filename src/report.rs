use vstd::prelude::*;
use vstd::string::{StrSliceExecFns, StringExecFns};

use crate::words::{count_words, frequencies, is_top, tokenize, tokens_of, WordCount};

verus! {

/// Why a run produced no ranking.
#[derive(PartialEq, Eq, Structural, Debug, Clone, Copy)]
pub enum RunError {
    /// The text could not be read.
    SourceUnavailable,
    /// The text holds no word.
    EmptyResult,
}

impl RunError {
    /// The line shown to the user for this outcome.
    pub fn message(&self) -> (r: String)
        ensures
            *self == RunError::SourceUnavailable ==> r@ == "Failed to read input"@,
            *self == RunError::EmptyResult ==> r@ == "No words found"@,
    {
        match self {
            RunError::SourceUnavailable => String::from_str("Failed to read input"),
            RunError::EmptyResult => String::from_str("No words found"),
        }
    }
}

/// The totals and the ranking of one text.
#[derive(Debug)]
pub struct Summary {
    /// The number of tokens.
    pub total: usize,
    /// The number of distinct words.
    pub unique: usize,
    /// The leading entries in ranking order.
    pub top: Vec<WordCount>,
}

/// Tokenizes `text`, counts its words and ranks the first `n` of them; a
/// text without words is an `EmptyResult`.
pub fn summarize(text: &str, n: usize) -> (r: Result<Summary, RunError>)
    ensures
        r is Err <==> tokens_of(text@).len() == 0,
        match r {
            Ok(s) => {
                &&& s.total == tokens_of(text@).len()
                &&& s.unique == frequencies(tokens_of(text@)).dom().len()
                &&& is_top(s.top@, frequencies(tokens_of(text@)), n as nat)
            },
            Err(e) => e == RunError::EmptyResult,
        },
{
    let toks = tokenize(text);
    proof {
        assert(toks@.len() == tokens_of(text@).len()) by {
            assert(toks@.len() == crate::words::words_of(toks@).len());
        }
    }
    if toks.len() == 0 {
        return Err(RunError::EmptyResult);
    }
    let table = count_words(&toks);
    proof {
        tokens_of(text@).to_multiset_ensures();
    }
    let total = table.total();
    let unique = table.unique();
    let top = table.top(n);
    Ok(Summary { total, unique, top })
}

/// A decimal digit.
pub open spec fn digit(d: nat) -> char {
    seq!['0', '1', '2', '3', '4', '5', '6', '7', '8', '9'][d as int]
}

/// The decimal notation of `n`, without leading zeros.
pub open spec fn decimal(n: nat) -> Seq<char>
    decreases n,
{
    if n < 10 {
        seq![digit(n)]
    } else {
        decimal(n / 10).push(digit(n % 10))
    }
}

/// Appends the decimal notation of `n` to `out`.
fn push_decimal(out: &mut String, n: usize)
    ensures
        final(out)@ == old(out)@ + decimal(n as nat),
    decreases n,
{
    if n >= 10 {
        push_decimal(out, n / 10);
    }
    let d = n % 10;
    let digits = "0123456789";
    proof {
        reveal_strlit("0123456789");
        assert(digits@ =~= seq!['0', '1', '2', '3', '4', '5', '6', '7', '8', '9']);
    }
    let s = digits.substring_char(d, d + 1);
    let ghost mid = out@;
    out.append(s);
    proof {
        assert(s@ =~= seq![digit(d as nat)]);
        if n >= 10 {
            assert(out@ =~= old(out)@ + decimal(n as nat));
        } else {
            assert(out@ =~= old(out)@ + decimal(n as nat));
        }
    }
}

/// The first line of a report.
pub open spec fn totals_line(total: nat, unique: nat) -> Seq<char> {
    "Total words: "@ + decimal(total) + ", Unique words: "@ + decimal(unique)
}

/// The line of a report for one ranked entry.
pub open spec fn entry_line(word: Seq<char>, count: nat) -> Seq<char> {
    word + ": "@ + decimal(count)
}

impl Summary {
    /// The report of this summary: the totals line, then one line per ranked
    /// entry, in order.
    pub fn lines(&self) -> (r: Vec<String>)
        ensures
            r@.len() == self.top@.len() + 1,
            r@[0]@ == totals_line(self.total as nat, self.unique as nat),
            forall|i: int|
                0 <= i < self.top@.len() ==> #[trigger] r@[i + 1]@ == entry_line(
                    self.top@[i].word@,
                    self.top@[i].count as nat,
                ),
    {
        let mut first = String::from_str("Total words: ");
        push_decimal(&mut first, self.total);
        first.append(", Unique words: ");
        push_decimal(&mut first, self.unique);
        let mut r: Vec<String> = Vec::new();
        r.push(first);
        let mut i: usize = 0;
        while i < self.top.len()
            invariant
                i <= self.top@.len(),
                r@.len() == i + 1,
                r@[0]@ == totals_line(self.total as nat, self.unique as nat),
                forall|k: int|
                    0 <= k < i ==> #[trigger] r@[k + 1]@ == entry_line(
                        self.top@[k].word@,
                        self.top@[k].count as nat,
                    ),
            decreases self.top@.len() - i,
        {
            let e = &self.top[i];
            let mut line = e.word.clone();
            line.append(": ");
            push_decimal(&mut line, e.count);
            r.push(line);
            i = i + 1;
        }
        r
    }
}

/// The whole report for `text` with the first `n` words: the totals and
/// ranked lines, or the single line that says that there is no word.
pub fn report(text: &str, n: usize) -> (r: Vec<String>)
    ensures
        tokens_of(text@).len() == 0 ==> r@.len() == 1 && r@[0]@ == "No words found"@,
        tokens_of(text@).len() > 0 ==> {
            let counts = frequencies(tokens_of(text@));
            &&& r@.len() >= 1
            &&& r@[0]@ == totals_line(tokens_of(text@).len(), counts.dom().len())
            &&& exists|top: Seq<WordCount>|
                {
                    &&& is_top(top, counts, n as nat)
                    &&& r@.len() == top.len() + 1
                    &&& forall|i: int|
                        0 <= i < top.len() ==> #[trigger] r@[i + 1]@ == entry_line(
                            top[i].word@,
                            top[i].count as nat,
                        )
                }
        },
{
    match summarize(text, n) {
        Ok(s) => s.lines(),
        Err(e) => {
            let mut r: Vec<String> = Vec::new();
            r.push(e.message());
            r
        },
    }
}

} // verus!
