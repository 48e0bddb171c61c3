//! Raw word lists.
//!
//! A word list is the unfiltered text form of a dictionary: all its words,
//! plus derived digraphs for the words that could ever be playable. A word
//! with two equal letters in a row can never step between two sides, so such
//! words get no digraph entry.

use vstd::prelude::*;

use crate::digraph::{digraphs_of, are_word_digraphs, Digraph};

verus! {

broadcast use vstd::seq_lib::lemma_seq_contains_after_push;

/// Two equal letters stand next to each other somewhere in `w`.
pub open spec fn has_adjacent_repeats(w: Seq<char>) -> bool {
    exists|i: int| 0 <= i < w.len() - 1 && #[trigger] w[i] == w[i + 1]
}

/// Reports whether any letter of the word immediately repeats.
pub fn has_adjacent_repeated_letters(word: &str) -> (r: bool)
    ensures
        r == has_adjacent_repeats(word@),
{
    let n = word.unicode_len();
    if n == 0 {
        return false;
    }
    let mut i: usize = 0;
    while i + 1 < n
        invariant
            n == word@.len(),
            1 <= n,
            i + 1 <= n,
            forall|m: int| 0 <= m < i ==> #[trigger] word@[m] != word@[m + 1],
        decreases n - i,
    {
        if word.get_char(i) == word.get_char(i + 1) {
            return true;
        }
        i = i + 1;
    }
    false
}

/// The consecutive letter pairs of a word, in order; an empty or one-letter
/// word has none.
pub fn extract_digraphs(word: &str) -> (r: Vec<Digraph>)
    ensures
        are_word_digraphs(r@, word@),
{
    digraphs_of(word)
}

/// One word list entry carrying derived digraphs.
#[derive(Debug)]
pub struct WordDigraphs {
    pub word: String,
    pub digraphs: Vec<Digraph>,
}

/// A raw word list: every word as given, digraphs derived for the words
/// without immediately repeated letters, and the union of those digraphs.
#[derive(Debug)]
pub struct Wordlist {
    pub words: Vec<String>,
    pub word_digraphs: Vec<WordDigraphs>,
    pub valid_digraphs: Vec<Digraph>,
}

/// Some entry of `entries` has `d` among its digraphs.
pub open spec fn some_entry_has(entries: Seq<WordDigraphs>, d: Digraph) -> bool {
    exists|k: int| 0 <= k < entries.len() && (#[trigger] entries[k]).digraphs@.contains(d)
}

impl Wordlist {
    /// Invariant of every constructed word list: the digraph entries are
    /// exactly the words without immediate repeats, in order, each carrying
    /// its own consecutive pairs, and `valid_digraphs` their union, each
    /// digraph once.
    pub open spec fn wf(&self) -> bool {
        &&& crate::scan::string_views(self.word_digraphs@.map_values(|e: WordDigraphs| e.word))
            == crate::scan::string_views(self.words@).filter(
            |w: Seq<char>| !has_adjacent_repeats(w),
        )
        &&& forall|k: int|
            0 <= k < self.word_digraphs@.len() ==> are_word_digraphs(
                (#[trigger] self.word_digraphs@[k]).digraphs@,
                self.word_digraphs@[k].word@,
            )
        &&& self.valid_digraphs@.no_duplicates()
        &&& forall|d: Digraph|
            #[trigger] self.valid_digraphs@.contains(d) <==> some_entry_has(
                self.word_digraphs@,
                d,
            )
    }

    /// Gathers a word list: keeps every word, derives digraphs for those
    /// without immediately repeated letters, and unites them.
    pub fn from_words(words: Vec<String>) -> (r: Wordlist)
        ensures
            r.words@ == words@,
            r.wf(),
    {
        let ghost p = |w: Seq<char>| !has_adjacent_repeats(w);
        let mut word_digraphs: Vec<WordDigraphs> = Vec::new();
        let mut valid_digraphs: Vec<Digraph> = Vec::new();
        let mut k: usize = 0;
        proof {
            assert(crate::scan::string_views(words@).take(0) =~= Seq::<Seq<char>>::empty());
            reveal(Seq::filter);
            assert(crate::scan::string_views(
                word_digraphs@.map_values(|e: WordDigraphs| e.word),
            ) =~= crate::scan::string_views(words@).take(0).filter(p));
        }
        while k < words.len()
            invariant
                k <= words@.len(),
                crate::scan::string_views(word_digraphs@.map_values(|e: WordDigraphs| e.word))
                    == crate::scan::string_views(words@).take(k as int).filter(p),
                p == (|w: Seq<char>| !has_adjacent_repeats(w)),
                forall|m: int|
                    0 <= m < word_digraphs@.len() ==> are_word_digraphs(
                        (#[trigger] word_digraphs@[m]).digraphs@,
                        word_digraphs@[m].word@,
                    ),
                valid_digraphs@.no_duplicates(),
                forall|d: Digraph|
                    #[trigger] valid_digraphs@.contains(d) <==> some_entry_has(word_digraphs@, d),
            decreases words@.len() - k,
        {
            let ghost svs = crate::scan::string_views(words@);
            proof {
                assert(svs.take(k + 1) =~= svs.take(k as int).push(svs[k as int]));
                crate::board::lemma_filter_push(svs.take(k as int), p, svs[k as int]);
                assert(words@[k as int]@ == svs[k as int]);
            }
            if has_adjacent_repeated_letters(words[k].as_str()) {
                proof {
                    assert(crate::scan::string_views(
                        word_digraphs@.map_values(|e: WordDigraphs| e.word),
                    ) =~= svs.take(k + 1).filter(p));
                }
                k = k + 1;
                continue;
            }
            let w = words[k].clone();
            let digraphs = extract_digraphs(w.as_str());
            let ghost entries_pre = word_digraphs@;
            let entry = WordDigraphs { word: w, digraphs };
            word_digraphs.push(entry);
            proof {
                assert(word_digraphs@ == entries_pre.push(entry));
                assert(word_digraphs@.drop_last() =~= entries_pre);
                assert(word_digraphs@.map_values(|e: WordDigraphs| e.word) =~= entries_pre
                    .map_values(|e: WordDigraphs| e.word).push(entry.word));
                assert(crate::scan::string_views(
                    word_digraphs@.map_values(|e: WordDigraphs| e.word),
                ) =~= crate::scan::string_views(
                    entries_pre.map_values(|e: WordDigraphs| e.word),
                ).push(entry.word@));
                assert(crate::scan::string_views(
                    word_digraphs@.map_values(|e: WordDigraphs| e.word),
                ) =~= svs.take(k + 1).filter(p));
            }
            // Fold the new entry's digraphs into the union.
            let ref e = word_digraphs[word_digraphs.len() - 1];
            let mut m: usize = 0;
            while m < e.digraphs.len()
                invariant
                    word_digraphs@.len() >= 1,
                    e == word_digraphs@[word_digraphs@.len() - 1],
                    m <= e.digraphs@.len(),
                    valid_digraphs@.no_duplicates(),
                    forall|d: Digraph|
                        #[trigger] valid_digraphs@.contains(d) <==> (some_entry_has(
                            word_digraphs@.drop_last(),
                            d,
                        ) || exists|m2: int|
                            0 <= m2 < m && #[trigger] word_digraphs@[word_digraphs@.len()
                                - 1].digraphs@[m2] == d),
                decreases e.digraphs@.len() - m,
            {
                let d = e.digraphs[m];
                if !crate::digraph::contains_digraph(&valid_digraphs, d) {
                    let ghost pre = valid_digraphs@;
                    valid_digraphs.push(d);
                    proof {
                        assert(valid_digraphs@.no_duplicates()) by {
                            assert forall|k1: int, k2: int|
                                0 <= k1 < valid_digraphs@.len() && 0 <= k2 < valid_digraphs@.len()
                                    && k1 != k2 implies valid_digraphs@[k1]
                                != valid_digraphs@[k2] by {
                                if k1 < pre.len() && k2 < pre.len() {
                                    assert(pre[k1] != pre[k2]);
                                } else if k2 == pre.len() {
                                    if valid_digraphs@[k1] == d {
                                        assert(pre[k1] == d);
                                        assert(pre.contains(d));
                                    }
                                } else {
                                    if valid_digraphs@[k2] == d {
                                        assert(pre[k2] == d);
                                        assert(pre.contains(d));
                                    }
                                }
                            }
                        }
                    }
                }
                proof {
                    assert(word_digraphs@[word_digraphs@.len() - 1].digraphs@[m as int] == d);
                    assert forall|d2: Digraph| #[trigger]
                        valid_digraphs@.contains(d2) <==> (some_entry_has(
                        word_digraphs@.drop_last(),
                        d2,
                    ) || exists|m2: int|
                        0 <= m2 < m + 1 && #[trigger] word_digraphs@[word_digraphs@.len()
                            - 1].digraphs@[m2] == d2) by {
                        if d2 == d {
                            assert(valid_digraphs@.contains(d));
                        }
                        if exists|m2: int|
                            0 <= m2 < m + 1 && #[trigger] word_digraphs@[word_digraphs@.len()
                                - 1].digraphs@[m2] == d2 {
                            let m2 = choose|m2: int|
                                0 <= m2 < m + 1 && #[trigger] word_digraphs@[word_digraphs@.len()
                                    - 1].digraphs@[m2] == d2;
                            if m2 == m {
                                assert(d2 == d);
                            }
                        }
                    }
                }
                m = m + 1;
            }
            proof {
                assert forall|d2: Digraph| #[trigger]
                    valid_digraphs@.contains(d2) <==> some_entry_has(word_digraphs@, d2) by {
                    if valid_digraphs@.contains(d2) {
                        if some_entry_has(word_digraphs@.drop_last(), d2) {
                            let k2 = choose|k2: int|
                                0 <= k2 < word_digraphs@.drop_last().len() && (
                                #[trigger] word_digraphs@.drop_last()[k2]).digraphs@.contains(d2);
                            assert(word_digraphs@[k2].digraphs@.contains(d2));
                        } else {
                            let m2 = choose|m2: int|
                                0 <= m2 < e.digraphs@.len() && #[trigger] word_digraphs@[
                                    word_digraphs@.len() - 1].digraphs@[m2] == d2;
                            assert(word_digraphs@[word_digraphs@.len() - 1].digraphs@.contains(
                                d2,
                            ));
                        }
                    }
                    if some_entry_has(word_digraphs@, d2) {
                        let k2 = choose|k2: int|
                            0 <= k2 < word_digraphs@.len() && (
                            #[trigger] word_digraphs@[k2]).digraphs@.contains(d2);
                        if k2 < word_digraphs@.len() - 1 {
                            assert(word_digraphs@.drop_last()[k2].digraphs@.contains(d2));
                            assert(some_entry_has(word_digraphs@.drop_last(), d2));
                        } else {
                            let m2 = choose|m2: int|
                                0 <= m2 < word_digraphs@[k2].digraphs@.len()
                                    && word_digraphs@[k2].digraphs@[m2] == d2;
                        }
                        assert(valid_digraphs@.contains(d2));
                    }
                }
            }
            k = k + 1;
        }
        proof {
            assert(crate::scan::string_views(words@).take(words@.len() as int)
                =~= crate::scan::string_views(words@));
        }
        Wordlist { words, word_digraphs, valid_digraphs }
    }
}

} // verus!
