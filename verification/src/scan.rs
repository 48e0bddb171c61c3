//! Splitting character sequences at a separator.
//!
//! The specification side of line- and field-oriented text handling: a
//! recursive split of a sequence at every occurrence of a separator
//! character, with the lemmas that let a left-to-right scan maintain it.

use vstd::prelude::*;

verus! {

/// The views of a vector of strings, one character sequence per string.
pub open spec fn string_views(ss: Seq<String>) -> Seq<Seq<char>> {
    Seq::new(ss.len(), |i: int| ss[i]@)
}

/// The index of the first occurrence of `sep` in `s`, or `s.len()` if there is none.
pub open spec fn first_sep(s: Seq<char>, sep: char) -> nat
    decreases s.len(),
{
    if s.len() == 0 {
        0
    } else if s[0] == sep {
        0
    } else {
        1 + first_sep(s.drop_first(), sep)
    }
}

/// Splits `s` at each occurrence of `sep`: the segments between separators,
/// in order, kept even when empty. A string without separators is one
/// segment.
pub open spec fn split_sep(s: Seq<char>, sep: char) -> Seq<Seq<char>>
    decreases s.len(),
{
    let i = first_sep(s, sep);
    if i >= s.len() {
        seq![s]
    } else {
        seq![s.take(i as int)] + split_sep(s.skip(i + 1 as int), sep)
    }
}

pub proof fn lemma_first_sep(s: Seq<char>, sep: char)
    ensures
        first_sep(s, sep) <= s.len(),
        forall|k: int| 0 <= k < first_sep(s, sep) ==> s[k] != sep,
        first_sep(s, sep) < s.len() ==> s[first_sep(s, sep) as int] == sep,
    decreases s.len(),
{
    if s.len() == 0 {
    } else if s[0] == sep {
    } else {
        lemma_first_sep(s.drop_first(), sep);
        assert forall|k: int| 0 <= k < first_sep(s, sep) implies s[k] != sep by {
            if k >= 1 {
                assert(s.drop_first()[k - 1] == s[k]);
            }
        }
        if first_sep(s, sep) < s.len() {
            assert(s.drop_first()[first_sep(s.drop_first(), sep) as int] == sep);
        }
    }
}

pub proof fn lemma_first_sep_push(s: Seq<char>, sep: char, c: char)
    ensures
        first_sep(s.push(c), sep) == if first_sep(s, sep) < s.len() {
            first_sep(s, sep) as int
        } else if c == sep {
            s.len() as int
        } else {
            s.len() + 1 as int
        },
    decreases s.len(),
{
    lemma_first_sep(s, sep);
    if s.len() == 0 {
        assert(s.push(c)[0] == c);
        if c == sep {
            assert(first_sep(s.push(c), sep) == 0);
        } else {
            assert(s.push(c).drop_first() =~= Seq::<char>::empty());
            assert(first_sep(s.push(c).drop_first(), sep) == 0);
            assert(first_sep(s.push(c), sep) == 1);
        }
    } else if s[0] == sep {
        assert(s.push(c)[0] == sep);
        assert(first_sep(s.push(c), sep) == 0);
        assert(first_sep(s, sep) == 0);
    } else {
        assert(s.push(c)[0] == s[0]);
        assert(s.push(c).drop_first() =~= s.drop_first().push(c));
        lemma_first_sep_push(s.drop_first(), sep, c);
        let df = s.drop_first();
        assert(first_sep(s.push(c), sep) == 1 + first_sep(df.push(c), sep));
        assert(first_sep(s, sep) == 1 + first_sep(df, sep));
        assert(s.len() == 1 + df.len());
        if first_sep(df, sep) < df.len() {
            assert(first_sep(s.push(c), sep) == first_sep(s, sep));
        } else if c == sep {
            assert(first_sep(s.push(c), sep) == s.len());
        } else {
            assert(first_sep(s.push(c), sep) == s.len() + 1);
        }
    }
}

pub proof fn lemma_split_sep_len(s: Seq<char>, sep: char)
    ensures
        split_sep(s, sep).len() >= 1,
{
    let i = first_sep(s, sep);
    if i >= s.len() {
    } else {
    }
}

pub proof fn lemma_split_sep_push(s: Seq<char>, sep: char, c: char)
    ensures
        c != sep ==> split_sep(s.push(c), sep) == split_sep(s, sep).drop_last().push(
            split_sep(s, sep).last().push(c),
        ),
        c == sep ==> split_sep(s.push(c), sep) == split_sep(s, sep).push(Seq::empty()),
    decreases s.len(),
{
    lemma_first_sep(s, sep);
    lemma_first_sep_push(s, sep, c);
    lemma_split_sep_len(s, sep);
    let i = first_sep(s, sep);
    if i >= s.len() {
        if c == sep {
            assert(s.push(c).take(s.len() as int) =~= s);
            assert(s.push(c).skip(s.len() + 1 as int) =~= Seq::<char>::empty());
            assert(first_sep(s.push(c), sep) == s.len());
            assert(s.push(c).len() == s.len() + 1);
            assert(split_sep(s.push(c), sep) == seq![s.push(c).take(s.len() as int)]
                + split_sep(s.push(c).skip(s.len() + 1 as int), sep));
            assert(first_sep(Seq::<char>::empty(), sep) == 0);
            assert(split_sep(Seq::<char>::empty(), sep) == seq![Seq::<char>::empty()]);
            assert(split_sep(s.push(c), sep) =~= split_sep(s, sep).push(Seq::empty()));
        } else {
            assert(first_sep(s.push(c), sep) == s.len() + 1);
            assert(split_sep(s.push(c), sep) == seq![s.push(c)]);
            assert(split_sep(s.push(c), sep) =~= split_sep(s, sep).drop_last().push(
                split_sep(s, sep).last().push(c),
            ));
        }
    } else {
        assert(s.push(c).take(i as int) =~= s.take(i as int));
        assert(s.push(c).skip(i + 1 as int) =~= s.skip(i + 1 as int).push(c));
        lemma_split_sep_push(s.skip(i + 1 as int), sep, c);
        lemma_split_sep_len(s.skip(i + 1 as int), sep);
        let u = split_sep(s.skip(i + 1 as int), sep);
        if c == sep {
            assert(split_sep(s.push(c), sep) == seq![s.take(i as int)] + u.push(Seq::empty()));
            assert(seq![s.take(i as int)] + u.push(Seq::empty()) =~= (seq![s.take(i as int)]
                + u).push(Seq::empty()));
        } else {
            assert(split_sep(s.push(c), sep) == seq![s.take(i as int)] + u.drop_last().push(
                u.last().push(c),
            ));
            assert((seq![s.take(i as int)] + u).drop_last() =~= seq![s.take(i as int)]
                + u.drop_last());
            assert((seq![s.take(i as int)] + u).last() == u.last());
            assert(seq![s.take(i as int)] + u.drop_last().push(u.last().push(c)) =~= (seq![
                s.take(i as int),
            ] + u).drop_last().push((seq![s.take(i as int)] + u).last().push(c)));
        }
    }
}


} // verus!
