//! Candidate words and their digraphs.
//!
//! A dictionary holds words, each with a small integer frequency and the
//! digraphs its consecutive letters form, together with the union of all
//! those digraphs. It is built once and then filtered, per board, down to
//! the words playable there; the dictionary itself never changes.

use vstd::prelude::*;

use crate::digraph::{contains_digraph, copy_digraphs, digraphs_of, are_word_digraphs, Digraph};

verus! {

broadcast use vstd::seq_lib::lemma_seq_contains_after_push;

/// The consecutive letter pairs of a word, in order of appearance.
///
/// The word must not be empty.
pub fn extract_digraphs(word: &String) -> (r: Vec<Digraph>)
    requires
        word@.len() >= 1,
    ensures
        are_word_digraphs(r@, word@),
{
    digraphs_of(word.as_str())
}

/// One dictionary entry: the word, how common it is, and its digraphs.
#[derive(Debug, Clone)]
pub struct Word {
    pub word: String,
    pub frequency: i8,
    pub digraphs: Vec<Digraph>,
}

impl Word {
    /// A sound entry: nonempty, with `digraphs` exactly the word's
    /// consecutive letter pairs.
    pub open spec fn wf(&self) -> bool {
        &&& self.word@.len() >= 1
        &&& are_word_digraphs(self.digraphs@, self.word@)
    }

    /// Copies an entry field by field.
    pub fn duplicate(&self) -> (r: Word)
        ensures
            r.word@ == self.word@,
            r.frequency == self.frequency,
            r.digraphs@ == self.digraphs@,
    {
        Word {
            word: self.word.clone(),
            frequency: self.frequency,
            digraphs: copy_digraphs(&self.digraphs),
        }
    }
}

/// An ordered collection of words and the union of their digraphs.
#[derive(Debug)]
pub struct Dictionary {
    pub words: Vec<Word>,
    pub digraphs: Vec<Digraph>,
}

/// Some word of `words` has `d` among its digraphs.
pub open spec fn some_word_has(words: Seq<Word>, d: Digraph) -> bool {
    exists|k: int| 0 <= k < words.len() && (#[trigger] words[k]).digraphs@.contains(d)
}

impl Dictionary {
    /// Invariant of every constructed dictionary: `digraphs` lists exactly
    /// the digraphs occurring in some word, each once.
    pub open spec fn wf(&self) -> bool {
        &&& self.digraphs@.no_duplicates()
        &&& forall|d: Digraph|
            #[trigger] self.digraphs@.contains(d) <==> some_word_has(self.words@, d)
    }

    /// All entries are sound words.
    pub open spec fn words_wf(&self) -> bool {
        forall|k: int| 0 <= k < self.words@.len() ==> (#[trigger] self.words@[k]).wf()
    }

    /// Gathers words into a dictionary, keeping their order and deriving
    /// the union of their digraph sets.
    pub fn from_words(words: Vec<Word>) -> (r: Dictionary)
        ensures
            r.words@ == words@,
            r.wf(),
    {
        let mut digraphs: Vec<Digraph> = Vec::new();
        let mut k: usize = 0;
        while k < words.len()
            invariant
                k <= words@.len(),
                digraphs@.no_duplicates(),
                forall|d: Digraph|
                    #[trigger] digraphs@.contains(d) <==> some_word_has(words@.take(k as int), d),
            decreases words@.len() - k,
        {
            let ref w = words[k];
            let mut m: usize = 0;
            while m < w.digraphs.len()
                invariant
                    k < words@.len(),
                    m <= w.digraphs@.len(),
                    w == words@[k as int],
                    digraphs@.no_duplicates(),
                    forall|d: Digraph|
                        #[trigger] digraphs@.contains(d) <==> (some_word_has(
                            words@.take(k as int),
                            d,
                        ) || exists|m2: int|
                            0 <= m2 < m && words@[k as int].digraphs@[m2] == d),
                decreases w.digraphs@.len() - m,
            {
                let d = w.digraphs[m];
                if !contains_digraph(&digraphs, d) {
                    let ghost pre = digraphs@;
                    digraphs.push(d);
                    proof {
                        assert(digraphs@ == pre.push(d));
                        assert(digraphs@.no_duplicates()) by {
                            assert forall|k1: int, k2: int|
                                0 <= k1 < digraphs@.len() && 0 <= k2 < digraphs@.len() && k1 != k2
                                implies digraphs@[k1] != digraphs@[k2] by {
                                if k1 < pre.len() && k2 < pre.len() {
                                    assert(pre[k1] != pre[k2]);
                                } else if k2 == pre.len() {
                                    if digraphs@[k1] == d {
                                        assert(pre[k1] == d);
                                        assert(pre.contains(d));
                                    }
                                } else {
                                    if digraphs@[k2] == d {
                                        assert(pre[k2] == d);
                                        assert(pre.contains(d));
                                    }
                                }
                            }
                        }
                    }
                }
                proof {
                    assert(words@[k as int].digraphs@[m as int] == d);
                    assert forall|d2: Digraph| #[trigger]
                        digraphs@.contains(d2) <==> (some_word_has(words@.take(k as int), d2)
                        || exists|m2: int|
                        0 <= m2 < m + 1 && words@[k as int].digraphs@[m2] == d2) by {
                        if digraphs@.contains(d2) && d2 != d {
                        }
                        if d2 == d {
                            assert(digraphs@.contains(d));
                        }
                        if exists|m2: int| 0 <= m2 < m + 1 && words@[k as int].digraphs@[m2] == d2 {
                            let m2 = choose|m2: int|
                                0 <= m2 < m + 1 && words@[k as int].digraphs@[m2] == d2;
                            if m2 < m {
                            } else {
                                assert(d2 == d);
                            }
                        }
                    }
                }
                m = m + 1;
            }
            proof {
                assert(words@.take(k + 1).drop_last() =~= words@.take(k as int));
                assert(words@.take(k + 1).last() == words@[k as int]);
                assert forall|d2: Digraph| #[trigger]
                    digraphs@.contains(d2) <==> some_word_has(words@.take(k + 1), d2) by {
                    if digraphs@.contains(d2) {
                        if some_word_has(words@.take(k as int), d2) {
                            let k2 = choose|k2: int|
                                0 <= k2 < words@.take(k as int).len() && (#[trigger] words@.take(
                                    k as int,
                                )[k2]).digraphs@.contains(d2);
                            assert(words@.take(k + 1)[k2].digraphs@.contains(d2));
                        } else {
                            let m2 = choose|m2: int|
                                0 <= m2 < w.digraphs@.len() && words@[k as int].digraphs@[m2] == d2;
                            assert(words@.take(k + 1)[k as int].digraphs@.contains(d2));
                        }
                        assert(some_word_has(words@.take(k + 1), d2));
                    }
                    if some_word_has(words@.take(k + 1), d2) {
                        let k2 = choose|k2: int|
                            0 <= k2 < words@.take(k + 1).len() && (#[trigger] words@.take(
                                k + 1,
                            )[k2]).digraphs@.contains(d2);
                        if k2 < k {
                            assert(words@.take(k as int)[k2].digraphs@.contains(d2));
                            assert(some_word_has(words@.take(k as int), d2));
                        } else {
                            let m2 = choose|m2: int|
                                0 <= m2 < words@[k as int].digraphs@.len() && words@[k as int]
                                    .digraphs@[m2] == d2;
                        }
                        assert(digraphs@.contains(d2));
                    }
                }
            }
            k = k + 1;
        }
        proof {
            assert(words@.take(words@.len() as int) =~= words@);
        }
        Dictionary { words, digraphs }
    }
}

/// The separators between the tokens of a dictionary line: blank, tab and
/// the line-end characters.
pub open spec fn is_space(c: char) -> bool {
    c == ' ' || c == '\t' || c == '\r' || c == '\n'
}

/// The index of the first separator character of `s`, or `s.len()` if
/// there is none.
pub open spec fn first_space(s: Seq<char>) -> nat
    decreases s.len(),
{
    if s.len() == 0 {
        0
    } else if is_space(s[0]) {
        0
    } else {
        1 + first_space(s.drop_first())
    }
}

/// The whitespace-separated tokens of a line, in order. Runs of separators
/// count as one boundary, so no token is empty.
pub open spec fn tokens_of(s: Seq<char>) -> Seq<Seq<char>>
    decreases s.len(),
{
    if s.len() == 0 {
        Seq::empty()
    } else if is_space(s[0]) {
        tokens_of(s.drop_first())
    } else {
        let i = first_space(s);
        if i >= s.len() {
            seq![s]
        } else {
            seq![s.take(i as int)] + tokens_of(s.skip(i as int))
        }
    }
}

proof fn lemma_first_space(s: Seq<char>)
    ensures
        first_space(s) <= s.len(),
        forall|k: int| 0 <= k < first_space(s) ==> !is_space(s[k]),
        first_space(s) < s.len() ==> is_space(s[first_space(s) as int]),
    decreases s.len(),
{
    if s.len() == 0 {
    } else if is_space(s[0]) {
    } else {
        lemma_first_space(s.drop_first());
        assert forall|k: int| 0 <= k < first_space(s) implies !is_space(s[k]) by {
            if k >= 1 {
                assert(s.drop_first()[k - 1] == s[k]);
            }
        }
        if first_space(s) < s.len() {
            assert(s.drop_first()[first_space(s.drop_first()) as int] == s[first_space(s) as int]);
        }
    }
}

proof fn lemma_first_space_push(s: Seq<char>, c: char)
    ensures
        first_space(s.push(c)) == if first_space(s) < s.len() {
            first_space(s) as int
        } else if is_space(c) {
            s.len() as int
        } else {
            s.len() + 1 as int
        },
    decreases s.len(),
{
    lemma_first_space(s);
    if s.len() == 0 {
        assert(s.push(c)[0] == c);
        if is_space(c) {
            assert(first_space(s.push(c)) == 0);
        } else {
            assert(s.push(c).drop_first() =~= Seq::<char>::empty());
            assert(first_space(s.push(c).drop_first()) == 0);
            assert(first_space(s.push(c)) == 1);
        }
    } else if is_space(s[0]) {
        assert(s.push(c)[0] == s[0]);
        assert(first_space(s.push(c)) == 0);
        assert(first_space(s) == 0);
    } else {
        assert(s.push(c)[0] == s[0]);
        assert(s.push(c).drop_first() =~= s.drop_first().push(c));
        lemma_first_space_push(s.drop_first(), c);
        let df = s.drop_first();
        assert(first_space(s.push(c)) == 1 + first_space(df.push(c)));
        assert(first_space(s) == 1 + first_space(df));
        assert(s.len() == 1 + df.len());
    }
}

/// No token of a line is empty.
proof fn lemma_tokens_nonempty(s: Seq<char>)
    ensures
        forall|k: int| 0 <= k < tokens_of(s).len() ==> (#[trigger] tokens_of(s)[k]).len() >= 1,
    decreases s.len(),
{
    if s.len() == 0 {
    } else if is_space(s[0]) {
        lemma_tokens_nonempty(s.drop_first());
        assert(tokens_of(s) == tokens_of(s.drop_first()));
    } else {
        lemma_first_space(s);
        let i = first_space(s);
        assert(i >= 1);
        if i >= s.len() {
            assert(tokens_of(s) == seq![s]);
            assert(tokens_of(s)[0] == s);
        } else {
            lemma_tokens_nonempty(s.skip(i as int));
            assert forall|k: int| 0 <= k < tokens_of(s).len() implies (#[trigger] tokens_of(
                s,
            )[k]).len() >= 1 by {
                if k >= 1 {
                    assert(tokens_of(s)[k] == tokens_of(s.skip(i as int))[k - 1]);
                }
            }
        }
    }
}

/// A line whose final character is no separator ends inside a token.
proof fn lemma_tokens_last(s: Seq<char>)
    requires
        s.len() >= 1,
        !is_space(s.last()),
    ensures
        tokens_of(s).len() >= 1,
    decreases s.len(),
{
    if is_space(s[0]) {
        assert(s.drop_first().len() >= 1);
        assert(s.drop_first().last() == s.last());
        lemma_tokens_last(s.drop_first());
    } else {
    }
}

/// How one more character extends the tokens of a line: a separator closes
/// the current token, another character starts or extends one.
proof fn lemma_tokens_push(s: Seq<char>, c: char)
    ensures
        is_space(c) ==> tokens_of(s.push(c)) == tokens_of(s),
        !is_space(c) && (s.len() == 0 || is_space(s.last())) ==> tokens_of(s.push(c))
            == tokens_of(s).push(seq![c]),
        !is_space(c) && s.len() >= 1 && !is_space(s.last()) ==> tokens_of(s).len() >= 1
            && tokens_of(s.push(c)) == tokens_of(s).drop_last().push(
            tokens_of(s).last().push(c),
        ),
    decreases s.len(),
{
    lemma_first_space(s);
    lemma_first_space_push(s, c);
    if s.len() == 0 {
        assert(s.push(c)[0] == c);
        if is_space(c) {
            assert(s.push(c).drop_first() =~= Seq::<char>::empty());
            assert(tokens_of(Seq::<char>::empty()) == Seq::<Seq<char>>::empty());
            assert(tokens_of(s.push(c)) == tokens_of(s.push(c).drop_first()));
            assert(tokens_of(s.push(c)) =~= tokens_of(s));
        } else {
            assert(first_space(s.push(c)) == 1);
            assert(tokens_of(s.push(c)) == seq![s.push(c)]);
            assert(s.push(c) =~= seq![c]);
            assert(tokens_of(s.push(c)) =~= tokens_of(s).push(seq![c]));
        }
    } else if is_space(s[0]) {
        assert(s.push(c)[0] == s[0]);
        assert(s.push(c).drop_first() =~= s.drop_first().push(c));
        lemma_tokens_push(s.drop_first(), c);
        assert(tokens_of(s.push(c)) == tokens_of(s.drop_first().push(c)));
        if s.len() == 1 {
            assert(is_space(s.last()));
            assert(s.drop_first().len() == 0);
        } else {
            assert(s.drop_first().last() == s.last());
        }
    } else {
        let i = first_space(s);
        if i >= s.len() {
            assert(forall|k: int| 0 <= k < s.len() ==> !is_space(s[k]));
            assert(!is_space(s.last()));
            assert(tokens_of(s) == seq![s]);
            if is_space(c) {
                assert(first_space(s.push(c)) == s.len());
                assert(s.push(c).take(s.len() as int) =~= s);
                assert(s.push(c).skip(s.len() as int) =~= seq![c]);
                assert(tokens_of(s.push(c)) == seq![s] + tokens_of(seq![c]));
                assert(seq![c][0] == c);
                assert(seq![c].drop_first() =~= Seq::<char>::empty());
                assert(tokens_of(seq![c]) == tokens_of(seq![c].drop_first()));
                assert(tokens_of(Seq::<char>::empty()) == Seq::<Seq<char>>::empty());
                assert(tokens_of(s.push(c)) =~= tokens_of(s));
            } else {
                assert(first_space(s.push(c)) == s.len() + 1);
                assert(tokens_of(s.push(c)) == seq![s.push(c)]);
                assert(tokens_of(s.push(c)) =~= tokens_of(s).drop_last().push(
                    tokens_of(s).last().push(c),
                ));
            }
        } else {
            assert(is_space(s[i as int]));
            assert(i >= 1);
            assert(first_space(s.push(c)) == i);
            assert(s.push(c).take(i as int) =~= s.take(i as int));
            assert(s.push(c).skip(i as int) =~= s.skip(i as int).push(c));
            lemma_tokens_push(s.skip(i as int), c);
            let u = tokens_of(s.skip(i as int));
            assert(tokens_of(s) == seq![s.take(i as int)] + u);
            assert(tokens_of(s.push(c)) == seq![s.take(i as int)] + tokens_of(
                s.skip(i as int).push(c),
            ));
            assert(s.skip(i as int)[0] == s[i as int]);
            assert(s.skip(i as int).last() == s.last());
            if is_space(c) {
                assert(tokens_of(s.push(c)) =~= tokens_of(s));
            } else if is_space(s.last()) {
                assert(tokens_of(s.skip(i as int).push(c)) == u.push(seq![c]));
                assert(seq![s.take(i as int)] + u.push(seq![c]) =~= (seq![s.take(i as int)]
                    + u).push(seq![c]));
            } else {
                assert(s.skip(i as int).len() >= 1);
                lemma_tokens_last(s.skip(i as int));
                assert(u.len() >= 1);
                assert(tokens_of(s.skip(i as int).push(c)) == u.drop_last().push(
                    u.last().push(c),
                ));
                assert((seq![s.take(i as int)] + u).drop_last() =~= seq![s.take(i as int)]
                    + u.drop_last());
                assert((seq![s.take(i as int)] + u).last() == u.last());
                assert(seq![s.take(i as int)] + u.drop_last().push(u.last().push(c)) =~= (seq![
                    s.take(i as int),
                ] + u).drop_last().push((seq![s.take(i as int)] + u).last().push(c)));
            }
        }
    }
}

/// Splits a line into its whitespace-separated tokens.
pub fn tokenize(line: &str) -> (r: Vec<String>)
    ensures
        crate::scan::string_views(r@) == tokens_of(line@),
        forall|k: int| 0 <= k < r@.len() ==> (#[trigger] r@[k])@.len() >= 1,
{
    let n = line.unicode_len();
    let mut acc: Vec<String> = Vec::new();
    let mut cur: String = String::new();
    let mut i: usize = 0;
    proof {
        assert(line@.take(0) =~= Seq::<char>::empty());
        assert(crate::scan::string_views(acc@) =~= tokens_of(line@.take(0)));
    }
    while i < n
        invariant
            n == line@.len(),
            i <= n,
            cur@.len() == 0 ==> {
                &&& crate::scan::string_views(acc@) =~= tokens_of(line@.take(i as int))
                &&& (i == 0 || is_space(line@[i - 1]))
            },
            cur@.len() >= 1 ==> {
                &&& tokens_of(line@.take(i as int)).len() >= 1
                &&& crate::scan::string_views(acc@) =~= tokens_of(
                    line@.take(i as int),
                ).drop_last()
                &&& cur@ =~= tokens_of(line@.take(i as int)).last()
                &&& i >= 1
                &&& !is_space(line@[i - 1])
            },
            forall|k: int| 0 <= k < acc@.len() ==> (#[trigger] acc@[k])@.len() >= 1,
        decreases n - i,
    {
        let c = line.get_char(i);
        let ghost pre = line@.take(i as int);
        proof {
            assert(line@.take(i + 1) =~= pre.push(c));
            if i >= 1 {
                assert(pre.last() == line@[i - 1]);
            }
            lemma_tokens_push(pre, c);
        }
        if c == ' ' || c == '\t' || c == '\r' || c == '\n' {
            if cur.as_str().unicode_len() > 0 {
                acc.push(cur);
                cur = String::new();
                proof {
                    assert(crate::scan::string_views(acc@) =~= tokens_of(pre).drop_last().push(
                        tokens_of(pre).last(),
                    ));
                    assert(tokens_of(pre).drop_last().push(tokens_of(pre).last()) =~= tokens_of(
                        pre,
                    ));
                    assert(crate::scan::string_views(acc@) =~= tokens_of(line@.take(i + 1)));
                }
            } else {
                proof {
                    assert(crate::scan::string_views(acc@) =~= tokens_of(line@.take(i + 1)));
                }
            }
        } else {
            if cur.as_str().unicode_len() == 0 {
                cur.push(c);
                proof {
                    assert(tokens_of(pre.push(c)) == tokens_of(pre).push(seq![c]));
                    assert(tokens_of(pre.push(c)).drop_last() =~= tokens_of(pre));
                    assert(cur@ =~= seq![c]);
                    assert(cur@ =~= tokens_of(line@.take(i + 1)).last());
                }
            } else {
                let ghost cur_pre = cur@;
                cur.push(c);
                proof {
                    assert(tokens_of(pre.push(c)) == tokens_of(pre).drop_last().push(
                        tokens_of(pre).last().push(c),
                    ));
                    assert(tokens_of(pre.push(c)).drop_last() =~= tokens_of(pre).drop_last());
                    assert(cur@ =~= cur_pre.push(c));
                    assert(cur@ =~= tokens_of(line@.take(i + 1)).last());
                }
            }
        }
        i = i + 1;
    }
    proof {
        assert(line@.take(n as int) =~= line@);
        lemma_tokens_nonempty(line@);
    }
    if cur.as_str().unicode_len() > 0 {
        acc.push(cur);
        proof {
            assert(crate::scan::string_views(acc@) =~= tokens_of(line@).drop_last().push(
                tokens_of(line@).last(),
            ));
            assert(crate::scan::string_views(acc@) =~= tokens_of(line@));
            assert forall|k: int| 0 <= k < acc@.len() implies (#[trigger] acc@[k])@.len() >= 1 by {
                assert(acc@[k]@ == tokens_of(line@)[k]);
            }
        }
    } else {
        proof {
            assert(crate::scan::string_views(acc@) =~= tokens_of(line@));
        }
    }
    acc
}

/// A decimal digit.
pub open spec fn is_digit(c: char) -> bool {
    '0' <= c && c <= '9'
}

/// Every character of `s` is a decimal digit.
pub open spec fn all_digits(s: Seq<char>) -> bool {
    forall|k: int| 0 <= k < s.len() ==> is_digit(#[trigger] s[k])
}

/// The value of a sequence of decimal digits, most significant first.
pub open spec fn digits_val(s: Seq<char>) -> int
    decreases s.len(),
{
    if s.len() == 0 {
        0
    } else {
        digits_val(s.drop_last()) * 10 + (s.last() as int - '0' as int)
    }
}

/// What `i8` parsing accepts: an optional sign, then one or more digits,
/// the value within the type's range. Anything else is rejected.
pub open spec fn parse_i8_spec(s: Seq<char>) -> Option<i8> {
    let signed = s.len() >= 1 && (s[0] == '+' || s[0] == '-');
    let body = if signed {
        s.drop_first()
    } else {
        s
    };
    let neg = s.len() >= 1 && s[0] == '-';
    if body.len() >= 1 && all_digits(body) {
        let v = if neg {
            -digits_val(body)
        } else {
            digits_val(body)
        };
        if -128 <= v && v <= 127 {
            Some(v as i8)
        } else {
            None
        }
    } else {
        None
    }
}

proof fn lemma_digits_val_nonneg(s: Seq<char>)
    requires
        all_digits(s),
    ensures
        digits_val(s) >= 0,
    decreases s.len(),
{
    if s.len() == 0 {
    } else {
        assert(all_digits(s.drop_last())) by {
            assert(forall|k: int| 0 <= k < s.len() - 1 ==> s.drop_last()[k] == s[k]);
        }
        lemma_digits_val_nonneg(s.drop_last());
        assert(is_digit(s.last()));
    }
}

/// The value only grows as more digits arrive.
proof fn lemma_digits_val_prefix(s: Seq<char>, k: int)
    requires
        all_digits(s),
        0 <= k <= s.len(),
    ensures
        digits_val(s.take(k)) <= digits_val(s),
    decreases s.len(),
{
    if k == s.len() {
        assert(s.take(k) =~= s);
    } else {
        assert(all_digits(s.drop_last())) by {
            assert(forall|m: int| 0 <= m < s.len() - 1 ==> s.drop_last()[m] == s[m]);
        }
        assert(s.take(k) =~= s.drop_last().take(k));
        lemma_digits_val_prefix(s.drop_last(), k);
        lemma_digits_val_nonneg(s.drop_last());
        assert(is_digit(s.last()));
        assert(digits_val(s) >= digits_val(s.drop_last()));
    }
}

/// Parses a small signed integer the way the dictionary grammar reads a
/// frequency: optional sign, decimal digits, `i8` range.
pub fn parse_i8(s: &str) -> (r: Option<i8>)
    ensures
        r == parse_i8_spec(s@),
{
    let n = s.unicode_len();
    if n == 0 {
        return None;
    }
    let first = s.get_char(0);
    let neg = first == '-';
    let start: usize = if first == '-' || first == '+' {
        1
    } else {
        0
    };
    let ghost body = if start == 1 {
        s@.drop_first()
    } else {
        s@
    };
    proof {
        assert(body.len() == n - start);
        assert(forall|k: int| 0 <= k < body.len() ==> body[k] == s@[k + start]);
    }
    if n == start {
        return None;
    }
    let mut acc: u32 = 0;
    let mut k: usize = start;
    while k < n
        invariant
            n == s@.len(),
            start <= 1,
            start < n,
            start <= k <= n,
            (start == 1) == (s@[0] == '+' || s@[0] == '-'),
            neg == (s@[0] == '-'),
            body == if start == 1 {
                s@.drop_first()
            } else {
                s@
            },
            body.len() == n - start,
            forall|m: int| 0 <= m < body.len() ==> body[m] == s@[m + start],
            all_digits(body.take(k - start)),
            acc == digits_val(body.take(k - start)),
            acc <= 128,
        decreases n - k,
    {
        let c = s.get_char(k);
        proof {
            assert(body[k - start] == c);
        }
        if !('0' <= c && c <= '9') {
            proof {
                assert(!is_digit(body[k - start]));
                assert(!all_digits(body));
            }
            return None;
        }
        let d: u32 = (c as u32) - 48;
        proof {
            assert(c as int - '0' as int == d);
        }
        acc = acc * 10 + d;
        proof {
            assert(body.take(k + 1 - start).drop_last() =~= body.take(k - start));
            assert(body.take(k + 1 - start).last() == body[k - start]);
            assert(acc == digits_val(body.take(k + 1 - start)));
            assert(all_digits(body.take(k + 1 - start)));
        }
        if acc > 128 {
            proof {
                if all_digits(body) {
                    lemma_digits_val_prefix(body, k + 1 - start);
                    lemma_digits_val_nonneg(body);
                    assert(digits_val(body) >= acc);
                }
            }
            return None;
        }
        k = k + 1;
    }
    proof {
        assert(body.take(n - start) =~= body);
        assert(all_digits(body));
        assert(acc == digits_val(body));
    }
    if neg {
        if acc == 128 {
            Some(-128)
        } else {
            Some(-(acc as i8))
        }
    } else {
        if acc == 128 {
            None
        } else {
            Some(acc as i8)
        }
    }
}

/// What parsing one dictionary line yields: the word token and the
/// frequency, or nothing for a malformed line. A line parses when it has at
/// least two tokens and the second is an `i8`; tokens past the second are
/// ignored.
pub open spec fn parse_line_spec(line: Seq<char>) -> Option<(Seq<char>, i8)> {
    let ts = tokens_of(line);
    if ts.len() >= 2 {
        match parse_i8_spec(ts[1]) {
            Some(f) => Some((ts[0], f)),
            None => None,
        }
    } else {
        None
    }
}

/// The entries of the lines that parse, in order; malformed lines are
/// skipped.
pub open spec fn parsed_entries(segs: Seq<Seq<char>>) -> Seq<(Seq<char>, i8)>
    decreases segs.len(),
{
    if segs.len() == 0 {
        Seq::empty()
    } else {
        match parse_line_spec(segs[0]) {
            Some(p) => seq![p] + parsed_entries(segs.drop_first()),
            None => parsed_entries(segs.drop_first()),
        }
    }
}

proof fn lemma_parsed_entries_push(segs: Seq<Seq<char>>, x: Seq<char>)
    ensures
        parsed_entries(segs.push(x)) == match parse_line_spec(x) {
            Some(p) => parsed_entries(segs).push(p),
            None => parsed_entries(segs),
        },
    decreases segs.len(),
{
    if segs.len() == 0 {
        assert(segs.push(x)[0] == x);
        assert(segs.push(x).drop_first() =~= Seq::<Seq<char>>::empty());
        assert(parsed_entries(segs.push(x).drop_first()) == Seq::<(Seq<char>, i8)>::empty());
        match parse_line_spec(x) {
            Some(p) => {
                assert(parsed_entries(segs.push(x)) =~= parsed_entries(segs).push(p));
            },
            None => {
                assert(parsed_entries(segs.push(x)) =~= parsed_entries(segs));
            },
        }
    } else {
        assert(segs.push(x)[0] == segs[0]);
        assert(segs.push(x).drop_first() =~= segs.drop_first().push(x));
        lemma_parsed_entries_push(segs.drop_first(), x);
        match parse_line_spec(x) {
            Some(p) => {
                match parse_line_spec(segs[0]) {
                    Some(p0) => {
                        assert(parsed_entries(segs.push(x)) =~= parsed_entries(segs).push(p));
                    },
                    None => {
                        assert(parsed_entries(segs.push(x)) =~= parsed_entries(segs).push(p));
                    },
                }
            },
            None => {
                match parse_line_spec(segs[0]) {
                    Some(p0) => {
                        assert(parsed_entries(segs.push(x)) =~= parsed_entries(segs));
                    },
                    None => {
                        assert(parsed_entries(segs.push(x)) =~= parsed_entries(segs));
                    },
                }
            },
        }
    }
}

/// `words` carries exactly the entries `es`, word and frequency alike.
pub open spec fn words_match_entries(words: Seq<Word>, es: Seq<(Seq<char>, i8)>) -> bool {
    &&& words.len() == es.len()
    &&& forall|k: int|
        0 <= k < words.len() ==> (#[trigger] words[k]).word@ == es[k].0 && words[k].frequency
            == es[k].1
}

impl Dictionary {
    /// Reads one dictionary line: a word token and a frequency token.
    /// A malformed line yields nothing and is for the caller to skip.
    pub fn parse_word_line(line: &str) -> (r: Option<Word>)
        ensures
            match r {
                Some(w) => {
                    &&& parse_line_spec(line@) == Some((w.word@, w.frequency))
                    &&& w.wf()
                },
                None => parse_line_spec(line@) is None,
            },
    {
        let mut ts = tokenize(line);
        if ts.len() < 2 {
            return None;
        }
        proof {
            assert(ts@[0]@ == tokens_of(line@)[0]);
            assert(ts@[1]@ == tokens_of(line@)[1]);
        }
        let freq = parse_i8(ts[1].as_str());
        match freq {
            None => None,
            Some(f) => {
                let w = ts.remove(0);
                let digraphs = extract_digraphs(&w);
                Some(Word { word: w, frequency: f, digraphs })
            },
        }
    }

    /// Builds a dictionary from bare words, none empty, giving each entry
    /// the stock frequency used for word lists without one.
    pub fn from_strings(words: Vec<String>) -> (r: Dictionary)
        requires
            forall|k: int| 0 <= k < words@.len() ==> (#[trigger] words@[k])@.len() >= 1,
        ensures
            r.wf(),
            r.words_wf(),
            r.words@.len() == words@.len(),
            forall|k: int|
                0 <= k < words@.len() ==> (#[trigger] r.words@[k]).word@ == words@[k]@
                    && r.words@[k].frequency == 15,
    {
        let mut ws: Vec<Word> = Vec::new();
        let mut k: usize = 0;
        while k < words.len()
            invariant
                k <= words@.len(),
                forall|m: int| 0 <= m < words@.len() ==> (#[trigger] words@[m])@.len() >= 1,
                ws@.len() == k,
                forall|m: int|
                    0 <= m < k ==> (#[trigger] ws@[m]).word@ == words@[m]@ && ws@[m].frequency
                        == 15 && ws@[m].wf(),
            decreases words@.len() - k,
        {
            let w = words[k].clone();
            let digraphs = extract_digraphs(&w);
            ws.push(Word { word: w, frequency: 15, digraphs });
            k = k + 1;
        }
        let r = Dictionary::from_words(ws);
        r
    }

    /// Reads a line-oriented dictionary text: one `word frequency` pair per
    /// line, malformed lines skipped.
    pub fn from_text(text: &str) -> (r: Dictionary)
        ensures
            r.wf(),
            r.words_wf(),
            words_match_entries(
                r.words@,
                parsed_entries(crate::scan::split_sep(text@, '\n')),
            ),
    {
        let lines = split_lines(text);
        let mut ws: Vec<Word> = Vec::new();
        let mut k: usize = 0;
        proof {
            assert(crate::scan::string_views(lines@).take(0) =~= Seq::<Seq<char>>::empty());
            assert(parsed_entries(Seq::<Seq<char>>::empty()) == Seq::<(Seq<char>, i8)>::empty());
        }
        while k < lines.len()
            invariant
                crate::scan::string_views(lines@) == crate::scan::split_sep(text@, '\n'),
                k <= lines@.len(),
                words_match_entries(
                    ws@,
                    parsed_entries(crate::scan::string_views(lines@).take(k as int)),
                ),
                forall|m: int| 0 <= m < ws@.len() ==> (#[trigger] ws@[m]).wf(),
            decreases lines@.len() - k,
        {
            let ghost pre = crate::scan::string_views(lines@).take(k as int);
            proof {
                assert(crate::scan::string_views(lines@).take(k + 1) =~= pre.push(
                    lines@[k as int]@,
                ));
                lemma_parsed_entries_push(pre, lines@[k as int]@);
            }
            match Self::parse_word_line(lines[k].as_str()) {
                Some(w) => {
                    ws.push(w);
                },
                None => {},
            }
            k = k + 1;
        }
        proof {
            assert(crate::scan::string_views(lines@).take(lines@.len() as int)
                =~= crate::scan::string_views(lines@));
        }
        Dictionary::from_words(ws)
    }
}

impl Dictionary {
    /// Reads the same line-oriented grammar from raw bytes, each byte one
    /// character, as dictionary data arrives over a byte stream.
    pub fn from_bytes(data: &Vec<u8>) -> (r: Dictionary)
        ensures
            r.wf(),
            r.words_wf(),
            words_match_entries(
                r.words@,
                parsed_entries(
                    crate::scan::split_sep(data@.map_values(|b: u8| b as char), '\n'),
                ),
            ),
    {
        let mut text = String::new();
        let mut k: usize = 0;
        proof {
            assert(text@ =~= data@.map_values(|b: u8| b as char).take(0));
        }
        while k < data.len()
            invariant
                k <= data@.len(),
                text@ == data@.map_values(|b: u8| b as char).take(k as int),
            decreases data@.len() - k,
        {
            let b = data[k];
            text.push(b as char);
            proof {
                assert(text@ =~= data@.map_values(|b2: u8| b2 as char).take(k + 1));
            }
            k = k + 1;
        }
        proof {
            assert(data@.map_values(|b: u8| b as char).take(data@.len() as int) =~= data@
                .map_values(|b: u8| b as char));
        }
        Self::from_text(text.as_str())
    }
}

/// Splits a text into its lines, one segment per newline boundary.
pub fn split_lines(text: &str) -> (r: Vec<String>)
    ensures
        crate::scan::string_views(r@) == crate::scan::split_sep(text@, '\n'),
{
    let n = text.unicode_len();
    let mut acc: Vec<String> = Vec::new();
    let mut cur: String = String::new();
    let mut i: usize = 0;
    proof {
        assert(text@.take(0) =~= Seq::<char>::empty());
        assert(crate::scan::first_sep(Seq::<char>::empty(), '\n') == 0);
        assert(crate::scan::split_sep(Seq::<char>::empty(), '\n') == seq![Seq::<char>::empty()]);
        assert(crate::scan::string_views(acc@) =~= crate::scan::split_sep(
            text@.take(0),
            '\n',
        ).drop_last());
        assert(cur@ =~= crate::scan::split_sep(text@.take(0), '\n').last());
    }
    while i < n
        invariant
            n == text@.len(),
            i <= n,
            crate::scan::split_sep(text@.take(i as int), '\n').len() >= 1,
            crate::scan::string_views(acc@) =~= crate::scan::split_sep(
                text@.take(i as int),
                '\n',
            ).drop_last(),
            cur@ =~= crate::scan::split_sep(text@.take(i as int), '\n').last(),
        decreases n - i,
    {
        let c = text.get_char(i);
        let ghost pre = text@.take(i as int);
        proof {
            assert(text@.take(i + 1) =~= pre.push(c));
            crate::scan::lemma_split_sep_push(pre, '\n', c);
            crate::scan::lemma_split_sep_len(pre, '\n');
            crate::scan::lemma_split_sep_len(text@.take(i + 1), '\n');
        }
        if c == '\n' {
            acc.push(cur);
            cur = String::new();
            proof {
                let post = crate::scan::split_sep(text@.take(i + 1), '\n');
                let old_split = crate::scan::split_sep(pre, '\n');
                assert(post == old_split.push(Seq::empty()));
                assert(post.drop_last() =~= old_split);
                assert(old_split =~= old_split.drop_last().push(old_split.last()));
                assert(crate::scan::string_views(acc@) =~= post.drop_last());
            }
        } else {
            cur.push(c);
            proof {
                let post = crate::scan::split_sep(text@.take(i + 1), '\n');
                let old_split = crate::scan::split_sep(pre, '\n');
                assert(post == old_split.drop_last().push(old_split.last().push(c)));
                assert(post.drop_last() =~= old_split.drop_last());
                assert(cur@ =~= post.last());
            }
        }
        i = i + 1;
    }
    acc.push(cur);
    proof {
        assert(text@.take(n as int) =~= text@);
        crate::scan::lemma_split_sep_len(text@, '\n');
        assert(crate::scan::string_views(acc@) =~= crate::scan::split_sep(
            text@,
            '\n',
        ).drop_last().push(crate::scan::split_sep(text@, '\n').last()));
        assert(crate::scan::string_views(acc@) =~= crate::scan::split_sep(text@, '\n'));
    }
    acc
}

} // verus!
