use vstd::prelude::*;
use vstd::multiset::Multiset;
use vstd::pervasive::VecAdditionalExecFns;
use vstd::string::StrSliceExecFns;

verus! {

// ---------------------------------------------------------------------------
// Characters
// ---------------------------------------------------------------------------

/// Whether `c` is a letter or a digit in Unicode's sense (`char::is_alphanumeric`).
pub uninterp spec fn alphanumeric(c: char) -> bool;

/// ASCII letters and digits.
pub open spec fn ascii_alphanumeric(c: char) -> bool {
    ('a' <= c && c <= 'z') || ('A' <= c && c <= 'Z') || ('0' <= c && c <= '9')
}

/// ASCII case folding of one character: `A`..`Z` become `a`..`z`, every other
/// character stays as it is.
pub open spec fn ascii_lower(c: char) -> char {
    if 'A' <= c && c <= 'Z' {
        ((c as u32) + 32) as char
    } else {
        c
    }
}

/// ASCII case folding of a word.
pub open spec fn lower_word(w: Seq<char>) -> Seq<char> {
    w.map_values(|c: char| ascii_lower(c))
}

/// Relies on `char::is_alphanumeric`: a property of the character alone,
/// which on ASCII characters holds exactly of letters and digits.
#[verifier::external_body]
fn is_word_char(c: char) -> (r: bool)
    ensures
        r == alphanumeric(c),
        (c as u32) < 128 ==> (r == ascii_alphanumeric(c)),
{
    c.is_alphanumeric()
}

/// Relies on `str::to_ascii_lowercase`: every ASCII upper-case letter is
/// replaced by its lower-case form, every other character is kept.
#[verifier::external_body]
fn to_lower_ascii(s: &str) -> (r: String)
    ensures
        r@ == lower_word(s@),
{
    s.to_ascii_lowercase()
}

// ---------------------------------------------------------------------------
// Tokenizer
// ---------------------------------------------------------------------------

/// The maximal runs of alphanumeric characters of `s`, left to right, as they
/// stand in `s`.
pub open spec fn runs(s: Seq<char>) -> Seq<Seq<char>>
    decreases s.len(),
{
    if s.len() == 0 {
        Seq::empty()
    } else {
        let prev = runs(s.drop_last());
        let c = s.last();
        if !alphanumeric(c) {
            prev
        } else if s.len() >= 2 && alphanumeric(s[s.len() - 2]) {
            prev.update(prev.len() - 1, prev.last().push(c))
        } else {
            prev.push(seq![c])
        }
    }
}

/// The tokens of a text: its maximal alphanumeric runs, case-folded.
pub open spec fn tokens_of(s: Seq<char>) -> Seq<Seq<char>> {
    runs(s).map_values(|w: Seq<char>| lower_word(w))
}

/// The characters of each string of `v`.
pub open spec fn words_of(v: Seq<String>) -> Seq<Seq<char>> {
    v.map_values(|w: String| w@)
}

/// Splits `text` into its tokens: each maximal run of letters and digits,
/// with ASCII letters folded to lower case.
pub fn tokenize(text: &str) -> (r: Vec<String>)
    ensures
        words_of(r@) == tokens_of(text@),
{
    let n = text.unicode_len();
    let mut toks: Vec<String> = Vec::new();
    let ghost mut done: Seq<Seq<char>> = Seq::empty();
    let mut start: usize = 0;
    let mut in_run = false;
    let mut i: usize = 0;
    while i < n
        invariant
            n == text@.len(),
            0 <= start <= i <= n,
            toks@.len() == done.len(),
            forall|k: int| 0 <= k < done.len() ==> #[trigger] toks@[k]@ == lower_word(done[k]),
            in_run ==> start < i && alphanumeric(text@[i - 1]),
            in_run ==> runs(text@.take(i as int)) == done.push(text@.subrange(start as int, i as int)),
            !in_run ==> runs(text@.take(i as int)) == done,
            !in_run && i > 0 ==> !alphanumeric(text@[i - 1]),
        decreases n - i,
    {
        let c = text.get_char(i);
        let ghost pre = text@.take(i as int);
        assert(text@.take(i + 1).drop_last() =~= pre);
        if is_word_char(c) {
            if in_run {
                assert(text@.subrange(start as int, i as int).push(c) =~= text@.subrange(
                    start as int,
                    i + 1,
                ));
                assert(done.push(text@.subrange(start as int, i as int)).update(
                    done.len() as int,
                    text@.subrange(start as int, i as int).push(c),
                ) =~= done.push(text@.subrange(start as int, i + 1)));
            } else {
                assert(seq![c] =~= text@.subrange(i as int, i + 1));
                start = i;
                in_run = true;
            }
        } else if in_run {
            let w = to_lower_ascii(text.substring_char(start, i));
            toks.push(w);
            proof {
                done = done.push(text@.subrange(start as int, i as int));
            }
            in_run = false;
        }
        i = i + 1;
    }
    assert(text@.take(n as int) =~= text@);
    if in_run {
        let w = to_lower_ascii(text.substring_char(start, n));
        toks.push(w);
        proof {
            done = done.push(text@.subrange(start as int, n as int));
        }
    }
    assert(words_of(toks@) =~= tokens_of(text@));
    toks
}

// ---------------------------------------------------------------------------
// Word order
// ---------------------------------------------------------------------------

/// Lexicographic order on words by code point, a proper prefix first.
pub open spec fn lex_less(a: Seq<char>, b: Seq<char>) -> bool
    decreases a.len(),
{
    if a.len() == 0 {
        b.len() > 0
    } else if b.len() == 0 {
        false
    } else if a[0] != b[0] {
        a[0] < b[0]
    } else {
        lex_less(a.drop_first(), b.drop_first())
    }
}

/// No word comes before itself.
pub proof fn lemma_lex_irreflexive(a: Seq<char>)
    ensures
        !lex_less(a, a),
    decreases a.len(),
{
    if a.len() > 0 {
        lemma_lex_irreflexive(a.drop_first());
    }
}

/// Of two different words, one comes before the other.
pub proof fn lemma_lex_total(a: Seq<char>, b: Seq<char>)
    requires
        a != b,
    ensures
        lex_less(a, b) || lex_less(b, a),
    decreases a.len(),
{
    if a.len() > 0 && b.len() > 0 && a[0] == b[0] {
        if a.drop_first() == b.drop_first() {
            assert(a =~= seq![a[0]] + a.drop_first());
            assert(b =~= seq![b[0]] + b.drop_first());
        }
        lemma_lex_total(a.drop_first(), b.drop_first());
    } else if a.len() > 0 && b.len() > 0 {
    } else if a.len() == 0 && b.len() == 0 {
        assert(a =~= b);
    }
}

/// The order on words is transitive.
pub proof fn lemma_lex_transitive(a: Seq<char>, b: Seq<char>, c: Seq<char>)
    requires
        lex_less(a, b),
        lex_less(b, c),
    ensures
        lex_less(a, c),
    decreases a.len(),
{
    if a.len() > 0 && b.len() > 0 && c.len() > 0 && a[0] == b[0] && b[0] == c[0] {
        lemma_lex_transitive(a.drop_first(), b.drop_first(), c.drop_first());
    }
}

/// Whether `a` and `b` hold the same characters.
fn same_word(a: &str, b: &str) -> (r: bool)
    ensures
        r == (a@ == b@),
{
    let n = a.unicode_len();
    let m = b.unicode_len();
    if n != m {
        return false;
    }
    let mut i: usize = 0;
    while i < n
        invariant
            n == a@.len(),
            m == b@.len(),
            n == m,
            i <= n,
            forall|k: int| 0 <= k < i ==> a@[k] == b@[k],
        decreases n - i,
    {
        if a.get_char(i) != b.get_char(i) {
            return false;
        }
        i = i + 1;
    }
    assert(a@ =~= b@);
    true
}

/// Whether `a` comes before `b` in lexicographic order.
fn word_less(a: &str, b: &str) -> (r: bool)
    ensures
        r == lex_less(a@, b@),
{
    let n = a.unicode_len();
    let m = b.unicode_len();
    let mut i: usize = 0;
    assert(a@.skip(0) =~= a@ && b@.skip(0) =~= b@);
    while i < n && i < m
        invariant
            n == a@.len(),
            m == b@.len(),
            i <= n,
            i <= m,
            lex_less(a@, b@) == lex_less(a@.skip(i as int), b@.skip(i as int)),
        decreases n - i,
    {
        let x = a.get_char(i);
        let y = b.get_char(i);
        if x != y {
            return x < y;
        }
        assert(a@.skip(i as int).drop_first() =~= a@.skip(i + 1));
        assert(b@.skip(i as int).drop_first() =~= b@.skip(i + 1));
        i = i + 1;
    }
    i < m
}

// ---------------------------------------------------------------------------
// Frequency table
// ---------------------------------------------------------------------------

/// A word together with a number of occurrences.
#[derive(Debug)]
pub struct WordCount {
    pub word: String,
    pub count: usize,
}

/// The words of a list of entries, in order.
pub open spec fn keys(entries: Seq<WordCount>) -> Seq<Seq<char>> {
    entries.map_values(|e: WordCount| e.word@)
}

/// The frequency table of a token sequence: each word with its number of
/// occurrences.
pub open spec fn frequencies(tokens: Seq<Seq<char>>) -> Multiset<Seq<char>> {
    tokens.to_multiset()
}

/// `entries` lists each word of `counts` once, with its count.
spec fn lists_counts(entries: Seq<WordCount>, counts: Multiset<Seq<char>>) -> bool {
    &&& keys(entries).no_duplicates()
    &&& forall|i: int|
        0 <= i < entries.len() ==> #[trigger] counts.count(keys(entries)[i]) == entries[i].count
            && entries[i].count > 0
    &&& forall|w: Seq<char>| counts.count(w) > 0 ==> #[trigger] keys(entries).contains(w)
}

/// How often each word occurs in a token sequence.
pub struct FrequencyTable {
    entries: Vec<WordCount>,
    counts: Ghost<Multiset<Seq<char>>>,
}

impl View for FrequencyTable {
    type V = Multiset<Seq<char>>;

    closed spec fn view(&self) -> Multiset<Seq<char>> {
        self.counts@
    }
}

/// The position of `w` among the words of `entries`, if it is there.
fn find_word(entries: &Vec<WordCount>, w: &str) -> (r: Option<usize>)
    ensures
        match r {
            Some(j) => j < entries@.len() && entries@[j as int].word@ == w@,
            None => !keys(entries@).contains(w@),
        },
{
    let mut j: usize = 0;
    while j < entries.len()
        invariant
            j <= entries@.len(),
            forall|k: int| 0 <= k < j ==> keys(entries@)[k] != w@,
        decreases entries@.len() - j,
    {
        if same_word(entries[j].word.as_str(), w) {
            return Some(j);
        }
        j = j + 1;
    }
    None
}

/// The sum of the counts of a list of entries.
pub open spec fn sum_counts(entries: Seq<WordCount>) -> nat
    decreases entries.len(),
{
    if entries.len() == 0 {
        0
    } else {
        sum_counts(entries.drop_last()) + entries.last().count as nat
    }
}

/// Replacing one entry changes the sum by the difference of the counts.
proof fn lemma_sum_update(entries: Seq<WordCount>, j: int, e: WordCount)
    requires
        0 <= j < entries.len(),
    ensures
        sum_counts(entries.update(j, e)) + entries[j].count == sum_counts(entries) + e.count,
    decreases entries.len(),
{
    let u = entries.update(j, e);
    if j == entries.len() - 1 {
        assert(u.drop_last() =~= entries.drop_last());
    } else {
        assert(u.drop_last() =~= entries.drop_last().update(j, e));
        lemma_sum_update(entries.drop_last(), j, e);
    }
}

/// The counts of a prefix sum to no more than the counts of the whole list.
proof fn lemma_sum_prefix(entries: Seq<WordCount>, i: int)
    requires
        0 <= i <= entries.len(),
    ensures
        sum_counts(entries.take(i)) <= sum_counts(entries),
    decreases entries.len(),
{
    if i < entries.len() {
        assert(entries.drop_last().take(i) =~= entries.take(i));
        lemma_sum_prefix(entries.drop_last(), i);
    } else {
        assert(entries.take(i) =~= entries);
    }
}

/// The words of a table are the words of its list of entries.
proof fn lemma_dom_is_keys(entries: Seq<WordCount>, counts: Multiset<Seq<char>>)
    requires
        lists_counts(entries, counts),
    ensures
        counts.dom() =~= keys(entries).to_set(),
{
    let ks = keys(entries);
    assert forall|w: Seq<char>| ks.contains(w) implies counts.count(w) > 0 by {
        let k = choose|k: int| 0 <= k < ks.len() && ks[k] == w;
        assert(counts.count(ks[k]) == entries[k].count);
    }
}

impl FrequencyTable {
    #[verifier::type_invariant]
    spec fn inv(&self) -> bool {
        &&& lists_counts(self.entries@, self.counts@)
        &&& sum_counts(self.entries@) == self.counts@.len()
        &&& self.counts@.len() <= usize::MAX
    }

    /// The number of tokens counted: the sum of all counts.
    pub fn total(&self) -> (r: usize)
        ensures
            r == self@.len(),
    {
        proof {
            use_type_invariant(self);
        }
        let entries = &self.entries;
        let mut sum: usize = 0;
        let mut i: usize = 0;
        while i < entries.len()
            invariant
                i <= entries@.len(),
                sum == sum_counts(entries@.take(i as int)),
                sum_counts(entries@) <= usize::MAX,
            decreases entries@.len() - i,
        {
            proof {
                assert(entries@.take(i + 1).drop_last() =~= entries@.take(i as int));
                lemma_sum_prefix(entries@, i + 1);
            }
            sum = sum + entries[i].count;
            i = i + 1;
        }
        proof {
            assert(entries@.take(i as int) =~= entries@);
        }
        sum
    }

    /// The number of distinct words.
    pub fn unique(&self) -> (r: usize)
        ensures
            r == self@.dom().len(),
    {
        proof {
            use_type_invariant(self);
            lemma_dom_is_keys(self.entries@, self.counts@);
            keys(self.entries@).unique_seq_to_set();
        }
        self.entries.len()
    }

    /// How often `word` occurs.
    pub fn count_of(&self, word: &str) -> (r: usize)
        ensures
            r == self@.count(word@),
    {
        proof {
            use_type_invariant(self);
        }
        match find_word(&self.entries, word) {
            Some(j) => {
                assert(keys(self.entries@)[j as int] == word@);
                self.entries[j].count
            },
            None => 0,
        }
    }
}

/// Counts the occurrences of each token.
pub fn count_words(tokens: &Vec<String>) -> (t: FrequencyTable)
    ensures
        t@ == frequencies(words_of(tokens@)),
{
    broadcast use {vstd::seq_lib::group_to_multiset_ensures, vstd::multiset::group_multiset_axioms};

    let mut entries: Vec<WordCount> = Vec::new();
    let ghost mut counts: Multiset<Seq<char>> = Multiset::empty();
    let mut i: usize = 0;
    proof {
        vstd::multiset::lemma_multiset_empty_len(words_of(tokens@).take(0).to_multiset());
        assert(keys(entries@) =~= Seq::<Seq<char>>::empty());
    }
    while i < tokens.len()
        invariant
            i <= tokens@.len(),
            counts == words_of(tokens@).take(i as int).to_multiset(),
            counts.len() == i,
            lists_counts(entries@, counts),
            sum_counts(entries@) == i,
        decreases tokens@.len() - i,
    {
        let tok = &tokens[i];
        let ghost w = tok@;
        proof {
            assert(words_of(tokens@).take(i + 1) =~= words_of(tokens@).take(i as int).push(w));
            vstd::seq_lib::to_multiset_build(words_of(tokens@).take(i as int), w);
        }
        match find_word(&entries, tok.as_str()) {
            Some(j) => {
                let c = entries[j].count;
                proof {
                    assert(keys(entries@)[j as int] == w);
                    assert(counts.count(w) <= counts.len()) by {
                        broadcast use vstd::multiset::axiom_count_le_len;
                    }
                }
                let word = entries[j].word.clone();
                let ghost before = entries@;
                entries.set(j, WordCount { word, count: c + 1 });
                proof {
                    counts = counts.insert(w);
                    assert(keys(entries@) =~= keys(before));
                    lemma_sum_update(before, j as int, entries@[j as int]);
                }
            },
            None => {
                let ghost before = entries@;
                entries.push(WordCount { word: tok.clone(), count: 1 });
                proof {
                    assert(counts.count(w) == 0);
                    counts = counts.insert(w);
                    assert(keys(entries@) =~= keys(before).push(w));
                    assert(entries@.drop_last() =~= before);
                    assert forall|w2: Seq<char>| counts.count(w2) > 0 implies #[trigger] keys(
                        entries@,
                    ).contains(w2) by {
                        if w2 != w {
                            assert(keys(before).contains(w2));
                            let k = choose|k: int| 0 <= k < keys(before).len() && keys(before)[k] == w2;
                            assert(keys(entries@)[k] == w2);
                        } else {
                            assert(keys(entries@)[keys(before).len() as int] == w);
                        }
                    }
                }
            },
        }
        i = i + 1;
    }
    proof {
        assert(words_of(tokens@).take(i as int) =~= words_of(tokens@));
    }
    FrequencyTable { entries, counts: Ghost(counts) }
}

// ---------------------------------------------------------------------------
// Ranking
// ---------------------------------------------------------------------------

/// Whether the entry `(w1, c1)` comes before `(w2, c2)` in the ranking: the
/// higher count first, and on equal counts the word that comes first in
/// lexicographic order.
pub open spec fn ranks_before(w1: Seq<char>, c1: nat, w2: Seq<char>, c2: nat) -> bool {
    c1 > c2 || (c1 == c2 && lex_less(w1, w2))
}

/// Whether entry `a` comes before entry `b` in the ranking.
pub open spec fn entry_before(a: WordCount, b: WordCount) -> bool {
    ranks_before(a.word@, a.count as nat, b.word@, b.count as nat)
}

/// `r` holds the first `n` words of `counts` in ranking order, each with its
/// count, or all of them where there are fewer than `n`.
pub open spec fn is_top(r: Seq<WordCount>, counts: Multiset<Seq<char>>, n: nat) -> bool {
    &&& r.len() == if n <= counts.dom().len() {
        n
    } else {
        counts.dom().len()
    }
    &&& forall|i: int|
        0 <= i < r.len() ==> #[trigger] counts.count(keys(r)[i]) == r[i].count && r[i].count > 0
    &&& forall|i: int, j: int| 0 <= i < j < r.len() ==> entry_before(r[i], r[j])
    &&& forall|w: Seq<char>, i: int|
        counts.count(w) > 0 && !keys(r).contains(w) && 0 <= i < r.len() ==> ranks_before(
            #[trigger] keys(r)[i],
            r[i].count as nat,
            w,
            #[trigger] counts.count(w),
        )
}

/// The ranking is transitive.
pub proof fn lemma_ranks_transitive(a: WordCount, b: WordCount, c: WordCount)
    requires
        entry_before(a, b),
        entry_before(b, c),
    ensures
        entry_before(a, c),
{
    if a.count == b.count && b.count == c.count {
        lemma_lex_transitive(a.word@, b.word@, c.word@);
    }
}

/// Whether entry `a` comes before entry `b` in the ranking.
fn before(a: &WordCount, b: &WordCount) -> (r: bool)
    ensures
        r == entry_before(*a, *b),
{
    a.count > b.count || (a.count == b.count && word_less(a.word.as_str(), b.word.as_str()))
}

/// Distinct words listed among the words of a table are no more than the
/// table's words, and as many where they include each of them.
proof fn lemma_listed_len(r: Seq<WordCount>, entries: Seq<WordCount>, counts: Multiset<Seq<char>>)
    requires
        lists_counts(entries, counts),
        keys(r).no_duplicates(),
        forall|i: int| 0 <= i < r.len() ==> counts.count(#[trigger] keys(r)[i]) > 0,
    ensures
        r.len() <= counts.dom().len(),
        (forall|k: int| 0 <= k < entries.len() ==> keys(r).contains(#[trigger] keys(entries)[k]))
            ==> r.len() == counts.dom().len(),
{
    lemma_dom_is_keys(entries, counts);
    keys(r).unique_seq_to_set();
    let rs = keys(r).to_set();
    assert(rs.subset_of(counts.dom()));
    vstd::set_lib::lemma_len_subset(rs, counts.dom());
    if forall|k: int| 0 <= k < entries.len() ==> keys(r).contains(#[trigger] keys(entries)[k]) {
        assert(counts.dom().subset_of(rs));
        vstd::set_lib::lemma_len_subset(counts.dom(), rs);
    }
}

impl FrequencyTable {
    /// The first `n` entries in ranking order: higher counts first, equal
    /// counts by word; all entries where there are fewer than `n`.
    pub fn top(&self, n: usize) -> (r: Vec<WordCount>)
        ensures
            is_top(r@, self@, n as nat),
    {
        proof {
            use_type_invariant(self);
        }
        let entries = &self.entries;
        let ghost counts = self.counts@;
        let mut r: Vec<WordCount> = Vec::new();
        let mut exhausted = false;
        while r.len() < n && !exhausted
            invariant
                lists_counts(entries@, counts),
                r@.len() <= n,
                keys(r@).no_duplicates(),
                forall|i: int|
                    0 <= i < r@.len() ==> #[trigger] counts.count(keys(r@)[i]) == r@[i].count
                        && r@[i].count > 0,
                forall|i: int, j: int| 0 <= i < j < r@.len() ==> entry_before(r@[i], r@[j]),
                forall|k: int|
                    0 <= k < entries@.len() && r@.len() > 0 ==> keys(r@).contains(
                        #[trigger] keys(entries@)[k],
                    ) || entry_before(r@.last(), entries@[k]),
                exhausted ==> forall|k: int|
                    0 <= k < entries@.len() ==> keys(r@).contains(#[trigger] keys(entries@)[k]),
            decreases n - r@.len() + if exhausted {
                0int
            } else {
                1int
            },
        {
            let mut best: Option<usize> = None;
            let mut j: usize = 0;
            while j < entries.len()
                invariant
                    lists_counts(entries@, counts),
                    j <= entries@.len(),
                    match best {
                        Some(b) => b < j && (r@.len() == 0 || entry_before(r@.last(), entries@[b as int]))
                            && forall|k: int|
                            0 <= k < j && k != b && (r@.len() == 0 || entry_before(
                                r@.last(),
                                #[trigger] entries@[k],
                            )) ==> entry_before(entries@[b as int], entries@[k]),
                        None => forall|k: int|
                            0 <= k < j ==> !(r@.len() == 0 || entry_before(
                                r@.last(),
                                #[trigger] entries@[k],
                            )),
                    },
                decreases entries@.len() - j,
            {
                let eligible = r.len() == 0 || before(&r[r.len() - 1], &entries[j]);
                if eligible {
                    match best {
                        Some(b) => {
                            if before(&entries[j], &entries[b]) {
                                proof {
                                    assert forall|k: int|
                                        0 <= k < j + 1 && k != j && (r@.len() == 0 || entry_before(
                                            r@.last(),
                                            #[trigger] entries@[k],
                                        )) implies entry_before(entries@[j as int], entries@[k]) by {
                                        if k != b {
                                            lemma_ranks_transitive(
                                                entries@[j as int],
                                                entries@[b as int],
                                                entries@[k],
                                            );
                                        }
                                    }
                                }
                                best = Some(j);
                            } else {
                                proof {
                                    let eb = entries@[b as int];
                                    let ej = entries@[j as int];
                                    assert(keys(entries@)[b as int] != keys(entries@)[j as int]);
                                    lemma_lex_total(eb.word@, ej.word@);
                                    assert(counts.count(keys(entries@)[b as int]) == eb.count);
                                    assert(counts.count(keys(entries@)[j as int]) == ej.count);
                                }
                            }
                        },
                        None => {
                            best = Some(j);
                        },
                    }
                }
                j = j + 1;
            }
            match best {
                Some(b) => {
                    let e = &entries[b];
                    let ghost before_r = r@;
                    proof {
                        assert(counts.count(keys(entries@)[b as int]) == e.count);
                        assert forall|i: int| 0 <= i < before_r.len() implies entry_before(
                            #[trigger] before_r[i],
                            *e,
                        ) by {
                            if i < before_r.len() - 1 {
                                lemma_ranks_transitive(before_r[i], before_r.last(), *e);
                            }
                        }
                        assert forall|i: int| 0 <= i < before_r.len() implies keys(before_r)[i]
                            != e.word@ by {
                            if keys(before_r)[i] == e.word@ {
                                assert(counts.count(keys(before_r)[i]) == before_r[i].count);
                                lemma_lex_irreflexive(e.word@);
                            }
                        }
                    }
                    r.push(WordCount { word: e.word.clone(), count: e.count });
                    proof {
                        assert(keys(r@) =~= keys(before_r).push(e.word@));
                        assert forall|k: int|
                            0 <= k < entries@.len() && r@.len() > 0 implies keys(r@).contains(
                                #[trigger] keys(entries@)[k],
                            ) || entry_before(r@.last(), entries@[k]) by {
                            if k == b {
                                assert(keys(r@)[before_r.len() as int] == keys(entries@)[k]);
                            } else if before_r.len() > 0 && keys(before_r).contains(
                                keys(entries@)[k],
                            ) {
                                let t = choose|t: int|
                                    0 <= t < keys(before_r).len() && keys(before_r)[t]
                                        == keys(entries@)[k];
                                assert(keys(r@)[t] == keys(entries@)[k]);
                            }
                        }
                    }
                },
                None => {
                    exhausted = true;
                },
            }
        }
        proof {
            lemma_listed_len(r@, entries@, counts);
            assert forall|w: Seq<char>, i: int|
                counts.count(w) > 0 && !keys(r@).contains(w) && 0 <= i < r@.len()
                    implies ranks_before(
                #[trigger] keys(r@)[i],
                r@[i].count as nat,
                w,
                #[trigger] counts.count(w),
            ) by {
                lemma_dom_is_keys(entries@, counts);
                assert(counts.dom().contains(w));
                let k = choose|k: int| 0 <= k < keys(entries@).len() && keys(entries@)[k] == w;
                assert(counts.count(keys(entries@)[k]) == entries@[k].count);
                if i < r@.len() - 1 {
                    lemma_ranks_transitive(r@[i], r@.last(), entries@[k]);
                }
            }
        }
        r
    }
}

// ---------------------------------------------------------------------------
// Laws
// ---------------------------------------------------------------------------

/// `b` is `a` rearranged: position `i` of `b` holds what position `p[i]` of
/// `a` holds, and `p` takes no position twice.
pub open spec fn is_rearrangement(a: Seq<Seq<char>>, b: Seq<Seq<char>>, p: Seq<int>) -> bool {
    &&& b.len() == a.len()
    &&& p.len() == a.len()
    &&& forall|i: int| 0 <= i < p.len() ==> 0 <= #[trigger] p[i] < a.len()
    &&& forall|i: int, j: int| 0 <= i < j < p.len() ==> p[i] != p[j]
    &&& forall|i: int| 0 <= i < b.len() ==> #[trigger] b[i] == a[p[i]]
}

/// Order independence: counting a rearrangement of a token sequence gives
/// the same table, word for word and count for count.
pub proof fn lemma_order_independence(a: Seq<Seq<char>>, b: Seq<Seq<char>>, p: Seq<int>)
    requires
        is_rearrangement(a, b, p),
    ensures
        frequencies(a) == frequencies(b),
    decreases a.len(),
{
    broadcast use {vstd::seq_lib::group_to_multiset_ensures, vstd::multiset::group_multiset_axioms};

    if a.len() == 0 {
        assert(a =~= b);
    } else {
        let n = a.len() - 1;
        let k = p[n];
        let a2 = a.remove(k);
        let b2 = b.drop_last();
        let p2 = Seq::new(n as nat, |i: int| if p[i] < k { p[i] } else { p[i] - 1 });
        assert forall|i: int| 0 <= i < b2.len() implies #[trigger] b2[i] == a2[p2[i]] by {
            assert(p[i] != k);
        }
        assert forall|i: int, j: int| 0 <= i < j < p2.len() implies p2[i] != p2[j] by {
            assert(p[i] != k && p[j] != k);
        }
        assert forall|i: int| 0 <= i < p2.len() implies 0 <= #[trigger] p2[i] < a2.len() by {
            assert(p[i] != k);
        }
        lemma_order_independence(a2, b2, p2);
        assert(b2.push(b[n]) =~= b);
        assert(a.to_multiset() =~= a2.to_multiset().insert(a[k]));
    }
}

/// Round-trip total: the counts of the table of a text add up to the number
/// of its tokens.
pub proof fn lemma_total_is_token_count(text: Seq<char>)
    ensures
        frequencies(tokens_of(text)).len() == tokens_of(text).len(),
{
    tokens_of(text).to_multiset_ensures();
}


/// No entry comes before an entry that comes before it.
proof fn lemma_ranks_asymmetric(a: WordCount, b: WordCount)
    requires
        entry_before(a, b),
    ensures
        !entry_before(b, a),
{
    if entry_before(b, a) {
        lemma_ranks_transitive(a, b, a);
        lemma_lex_irreflexive(a.word@);
    }
}

/// In a ranking, the entry at position `i` comes before the entry of every
/// word of `counts` that the ranking does not hold before position `i`.
proof fn lemma_top_before_rest(
    r: Seq<WordCount>,
    counts: Multiset<Seq<char>>,
    n: nat,
    i: int,
    e: WordCount,
)
    requires
        is_top(r, counts, n),
        0 <= i < r.len(),
        counts.count(e.word@) == e.count,
        e.count > 0,
        e.word@ != r[i].word@,
        forall|k: int| 0 <= k < i ==> r[k].word@ != e.word@,
    ensures
        entry_before(r[i], e),
{
    if keys(r).contains(e.word@) {
        let j = choose|j: int| 0 <= j < keys(r).len() && keys(r)[j] == e.word@;
        assert(keys(r)[j] == r[j].word@);
        assert(counts.count(keys(r)[j]) == r[j].count);
        assert(i < j);
        assert(entry_before(r[i], r[j]));
    } else {
        assert(keys(r)[i] == r[i].word@);
        assert(ranks_before(keys(r)[i], r[i].count as nat, e.word@, counts.count(e.word@)));
    }
}

/// Two rankings of one table agree on their first `i` entries.
proof fn lemma_top_agree_prefix(
    r1: Seq<WordCount>,
    r2: Seq<WordCount>,
    counts: Multiset<Seq<char>>,
    n: nat,
    i: int,
)
    requires
        is_top(r1, counts, n),
        is_top(r2, counts, n),
        0 <= i <= r1.len(),
    ensures
        r1.len() == r2.len(),
        forall|k: int|
            0 <= k < i ==> #[trigger] r1[k].word@ == r2[k].word@ && r1[k].count == r2[k].count,
    decreases i,
{
    if i > 0 {
        lemma_top_agree_prefix(r1, r2, counts, n, i - 1);
        let k = i - 1;
        let a = r1[k];
        let b = r2[k];
        assert(counts.count(keys(r1)[k]) == a.count);
        assert(counts.count(keys(r2)[k]) == b.count);
        if a.word@ != b.word@ {
            assert forall|m: int| 0 <= m < k implies r2[m].word@ != a.word@ by {
                assert(r1[m].word@ == r2[m].word@);
                assert(counts.count(keys(r1)[m]) == r1[m].count);
                assert(entry_before(r1[m], a));
                lemma_lex_irreflexive(a.word@);
            }
            assert forall|m: int| 0 <= m < k implies r1[m].word@ != b.word@ by {
                assert(r1[m].word@ == r2[m].word@);
                assert(counts.count(keys(r2)[m]) == r2[m].count);
                assert(entry_before(r2[m], b));
                lemma_lex_irreflexive(b.word@);
            }
            lemma_top_before_rest(r2, counts, n, k, a);
            lemma_top_before_rest(r1, counts, n, k, b);
            lemma_ranks_asymmetric(a, b);
        }
    }
}

/// The ranking is determined: two lists that both hold the first `n` words
/// of one table in ranking order agree entry for entry.
pub proof fn lemma_top_determined(
    r1: Seq<WordCount>,
    r2: Seq<WordCount>,
    counts: Multiset<Seq<char>>,
    n: nat,
)
    requires
        is_top(r1, counts, n),
        is_top(r2, counts, n),
    ensures
        r1.len() == r2.len(),
        forall|k: int|
            0 <= k < r1.len() ==> #[trigger] r1[k].word@ == r2[k].word@ && r1[k].count == r2[k].count,
{
    lemma_top_agree_prefix(r1, r2, counts, n, r1.len() as int);
}

} // verus!
