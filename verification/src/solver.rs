//! The chain search.
//!
//! A solver is built once per request from a board and a dictionary: every
//! board letter gets a bit position, every playable word a bitmask of the
//! letters it covers, and the words are indexed by first letter. The search
//! then tries chains of one to four words, depth first, pruning words that
//! add no new letter, and accepts a chain when it covers the whole board
//! alphabet at exactly the target length. Results are capped at a caller
//! chosen bound, and the long-running variants poll a cancellation token
//! and return what was found so far.

use vstd::prelude::*;

use std::sync::atomic::AtomicBool;
use std::sync::atomic::Ordering;

use crate::board::{board_letter_count, word_playable, words_like, Board};
use crate::dictionary::{Dictionary, Word};

verus! {

broadcast use vstd::seq_lib::lemma_seq_contains_after_push;

/// One found chain: its words in order, scored by its length.
#[derive(Debug, Clone)]
pub struct Solution {
    pub words: Vec<String>,
    pub score: usize,
}

/// The views of a chain's words.
pub open spec fn chain_view(words: Seq<String>) -> Seq<Seq<char>> {
    crate::scan::string_views(words)
}

/// The views of a list of solutions, each a sequence of word views.
pub open spec fn sol_views(sols: Seq<Solution>) -> Seq<Seq<Seq<char>>> {
    Seq::new(sols.len(), |i: int| chain_view(sols[i].words@))
}

/// Every solution's score is its chain length.
pub open spec fn sols_scored(sols: Seq<Solution>) -> bool {
    forall|i: int| 0 <= i < sols.len() ==> (#[trigger] sols[i]).score == sols[i].words@.len()
}

/// The words of a chain joined by dashes.
pub open spec fn joined(words: Seq<Seq<char>>) -> Seq<char>
    decreases words.len(),
{
    if words.len() == 0 {
        Seq::empty()
    } else if words.len() == 1 {
        words[0]
    } else {
        joined(words.drop_last()) + seq!['-'] + words.last()
    }
}

impl Solution {
    /// Wraps a chain of words, scoring it by its length.
    pub fn new(words: Vec<String>) -> (r: Solution)
        ensures
            r.words@ == words@,
            r.score == words@.len(),
    {
        let score = words.len();
        Solution { words, score }
    }

    /// The chain as one string, words joined by dashes.
    pub fn text(&self) -> (r: String)
        ensures
            r@ == joined(chain_view(self.words@)),
    {
        let mut r = String::new();
        let mut k: usize = 0;
        proof {
            assert(chain_view(self.words@).take(0) =~= Seq::<Seq<char>>::empty());
            assert(r@ =~= joined(chain_view(self.words@).take(0)));
        }
        while k < self.words.len()
            invariant
                k <= self.words@.len(),
                r@ == joined(chain_view(self.words@).take(k as int)),
            decreases self.words@.len() - k,
        {
            if k > 0 {
                r.append("-");
            }
            r.append(self.words[k].as_str());
            proof {
                let cv = chain_view(self.words@);
                assert(cv.take(k + 1).drop_last() =~= cv.take(k as int));
                assert(cv.take(k + 1).last() == self.words@[k as int]@);
                if k == 0 {
                    assert(joined(cv.take(1)) == cv.take(1)[0]);
                    assert(r@ =~= joined(cv.take(1)));
                } else {
                    reveal_strlit("-");
                    assert(r@ =~= joined(cv.take(k as int)) + seq!['-'] + cv.take(k + 1).last());
                    assert(r@ =~= joined(cv.take(k + 1)));
                }
            }
            k = k + 1;
        }
        proof {
            assert(chain_view(self.words@).take(self.words@.len() as int) =~= chain_view(
                self.words@,
            ));
        }
        r
    }
}

/// A word together with the bitmask of the board letters it covers.
#[derive(Debug)]
pub struct WordBitmap {
    pub word: String,
    pub bitmap: u32,
}

/// Bit `i` of `m` is set.
pub open spec fn bit_set(m: u32, i: int) -> bool {
    0 <= i < 32 && (m >> (i as u32)) & 1u32 == 1u32
}

/// `m` marks exactly the board letters, listed in `letters`, that occur in
/// the word `w`; bits past the alphabet stay clear.
pub open spec fn valid_mask(letters: Seq<char>, w: Seq<char>, m: u32) -> bool {
    forall|i: int|
        0 <= i < 32 ==> (#[trigger] bit_set(m, i) <==> (i < letters.len() && w.contains(
            letters[i],
        )))
}

/// The mask with the low `n` bits set: full coverage of an `n`-letter board.
pub open spec fn mask_all(n: nat) -> u32 {
    ((1u64 << (n as u64)) - 1) as u32
}

pub proof fn lemma_bit_or(x: u32, y: u32, i: int)
    requires
        0 <= i < 32,
    ensures
        bit_set(x | y, i) == (bit_set(x, i) || bit_set(y, i)),
{
    let iu = i as u32;
    assert((((x | y) >> iu) & 1u32 == 1u32) == (((x >> iu) & 1u32 == 1u32) || ((y >> iu) & 1u32
        == 1u32))) by (bit_vector);
}

proof fn lemma_bit_single(k: int, i: int)
    requires
        0 <= k < 32,
        0 <= i < 32,
    ensures
        bit_set(1u32 << (k as u32), i) == (i == k),
{
    let ku = k as u32;
    let iu = i as u32;
    assert(ku < 32 && iu < 32 ==> ((((1u32 << ku) >> iu) & 1u32 == 1u32) == (iu == ku)))
        by (bit_vector);
}

pub proof fn lemma_bit_mask_all(n: nat, i: int)
    requires
        n <= 32,
        0 <= i < 32,
    ensures
        bit_set(mask_all(n), i) == (i < n),
{
    let nu = n as u64;
    let iu = i as u32;
    assert(nu <= 32 && iu < 32 ==> ((((((1u64 << nu) - 1) as u32) >> iu) & 1u32 == 1u32) == (iu
        < nu))) by (bit_vector);
}

proof fn lemma_bit_zero(i: int)
    requires
        0 <= i < 32,
    ensures
        !bit_set(0u32, i),
{
    let iu = i as u32;
    assert(!((0u32 >> iu) & 1u32 == 1u32)) by (bit_vector);
}

/// A cooperative cancellation signal: a flag an orchestrating caller sets
/// once, which long-running searches poll at defined checkpoints and honor
/// by returning what they have found so far. Another thread may set the
/// flag at any moment, so a poll promises nothing about its outcome.
pub struct CancelToken {
    flag: AtomicBool,
}

impl CancelToken {
    /// A fresh, unset token.
    pub fn new() -> CancelToken {
        CancelToken { flag: AtomicBool::new(false) }
    }

    /// Requests cancellation of the search polling this token.
    pub fn cancel(&self) {
        self.flag.store(true, Ordering::Relaxed);
    }

    /// Polls the token. The outcome depends on when another thread calls
    /// `cancel`, so nothing is promised of it.
    pub fn is_cancelled(&self) -> bool {
        self.flag.load(Ordering::Relaxed)
    }
}

/// The position of `c` in the board alphabet, or -1 when `c` is not a board
/// letter.
pub open spec fn letter_index(letters: Seq<char>, c: char) -> int {
    if letters.contains(c) {
        choose|k: int| 0 <= k < letters.len() && letters[k] == c
    } else {
        -1
    }
}

/// The letter `c` stands at `(a, b)` on the board, strictly before scan
/// position `(i, j)`.
pub open spec fn letter_from(
    sides: Seq<Seq<char>>,
    c: char,
    a: int,
    b: int,
    i: int,
    j: int,
) -> bool {
    &&& 0 <= a < 4
    &&& 0 <= b < sides[a].len()
    &&& sides[a][b] == c
    &&& crate::board::scan_before(a, b, i, j)
}

/// The letters of the first `i` sides, in order.
pub open spec fn prefix_letters(sides: Seq<Seq<char>>, i: int) -> Seq<char>
    decreases i,
{
    if i <= 0 {
        Seq::empty()
    } else {
        prefix_letters(sides, i - 1) + sides[i - 1]
    }
}

/// A search-ready solver. Built once from a board and a dictionary; the
/// search itself only reads it.
pub struct Solver {
    pub word_bitmaps: Vec<WordBitmap>,
    pub words_by_first_letter: Vec<Vec<usize>>,
    pub letters: Vec<char>,
    pub all_letters_mask: u32,
    pub max_solutions: usize,
}

impl Solver {
    /// Invariant of every constructed solver: at most 26 distinct board
    /// letters, the full mask with one bit per letter, every word bitmask
    /// marking exactly the board letters of its word, and the first-letter
    /// index holding only words that indeed start with that letter.
    pub open spec fn wf(&self) -> bool {
        &&& self.letters@.len() <= 26
        &&& self.letters@.no_duplicates()
        &&& self.all_letters_mask == mask_all(self.letters@.len())
        &&& forall|k: int|
            0 <= k < self.word_bitmaps@.len() ==> valid_mask(
                self.letters@,
                (#[trigger] self.word_bitmaps@[k]).word@,
                self.word_bitmaps@[k].bitmap,
            ) && self.word_bitmaps@[k].word@.len() >= 1
        &&& self.words_by_first_letter@.len() == self.letters@.len()
        &&& forall|c: int, m: int|
            0 <= c < self.letters@.len() && 0 <= m < self.words_by_first_letter@[c]@.len() ==> {
                let idx = (#[trigger] self.words_by_first_letter@[c]@[m]) as int;
                &&& 0 <= idx < self.word_bitmaps@.len()
                &&& self.word_bitmaps@[idx].word@.len() >= 1
                &&& self.word_bitmaps@[idx].word@[0] == self.letters@[c]
            }
    }

    /// The word indices the search may try next: every word for the first
    /// link of a chain, else the words beginning with the previous word's
    /// last letter.
    pub open spec fn candidates(self, last: Option<char>) -> Seq<usize> {
        match last {
            None => Seq::new(self.word_bitmaps@.len(), |i: int| i as usize),
            Some(c) => {
                if self.letters@.contains(c) {
                    self.words_by_first_letter@[letter_index(self.letters@, c)]@
                } else {
                    Seq::empty()
                }
            },
        }
    }
}

/// The flattened alphabet of a valid board: all letters lower-case ASCII
/// and no letter repeated.
proof fn lemma_board_letters_facts(sides: Seq<Seq<char>>)
    requires
        crate::board::sides_wf(sides),
    ensures
        crate::board::board_letters(sides).no_duplicates(),
        forall|m: int|
            0 <= m < crate::board::board_letters(sides).len() ==> crate::is_lower_alpha(
                #[trigger] crate::board::board_letters(sides)[m],
            ),
{
    let bl = crate::board::board_letters(sides);
    let l0 = sides[0].len() as int;
    let l1 = sides[1].len() as int;
    let l2 = sides[2].len() as int;
    let l3 = sides[3].len() as int;
    assert forall|m: int| #![trigger bl[m]] 0 <= m < bl.len() implies exists|a: int, b: int|
        #[trigger] letter_from(sides, bl[m], a, b, 4, 0) by {
        if m < l0 {
            assert(bl[m] == sides[0][m]);
            assert(letter_from(sides, bl[m], 0, m, 4, 0));
        } else if m < l0 + l1 {
            assert(bl[m] == sides[1][m - l0]);
            assert(letter_from(sides, bl[m], 1, m - l0, 4, 0));
        } else if m < l0 + l1 + l2 {
            assert(bl[m] == sides[2][m - l0 - l1]);
            assert(letter_from(sides, bl[m], 2, m - l0 - l1, 4, 0));
        } else {
            assert(bl[m] == sides[3][m - l0 - l1 - l2]);
            assert(letter_from(sides, bl[m], 3, m - l0 - l1 - l2, 4, 0));
        }
    }
    assert forall|m: int| 0 <= m < bl.len() implies crate::is_lower_alpha(#[trigger] bl[m]) by {
        let (a, b): (int, int) = choose|a: int, b: int| #[trigger] letter_from(sides, bl[m], a, b, 4, 0);
        assert(crate::is_lower_alpha(sides[a][b]));
    }
    assert(bl.no_duplicates()) by {
        assert forall|m1: int, m2: int|
            0 <= m1 < bl.len() && 0 <= m2 < bl.len() && m1 != m2 implies bl[m1] != bl[m2] by {
            if m1 < l0 {
                assert(bl[m1] == sides[0][m1]);
            } else if m1 < l0 + l1 {
                assert(bl[m1] == sides[1][m1 - l0]);
            } else if m1 < l0 + l1 + l2 {
                assert(bl[m1] == sides[2][m1 - l0 - l1]);
            } else {
                assert(bl[m1] == sides[3][m1 - l0 - l1 - l2]);
            }
            if m2 < l0 {
                assert(bl[m2] == sides[0][m2]);
            } else if m2 < l0 + l1 {
                assert(bl[m2] == sides[1][m2 - l0]);
            } else if m2 < l0 + l1 + l2 {
                assert(bl[m2] == sides[2][m2 - l0 - l1]);
            } else {
                assert(bl[m2] == sides[3][m2 - l0 - l1 - l2]);
            }
        }
    }
}

/// A run of distinct lower-case ASCII letters cannot outgrow its alphabet.
proof fn lemma_letters_at_most_26(letters: Seq<char>)
    requires
        letters.no_duplicates(),
        forall|k: int| 0 <= k < letters.len() ==> crate::is_lower_alpha(#[trigger] letters[k]),
    ensures
        letters.len() <= 26,
{
    let f = |c: char| c as int;
    assert(vstd::relations::injective(f)) by {
        assert forall|x: char, y: char| #[trigger] f(x) == #[trigger] f(y) implies x == y by {}
    }
    let li = letters.map_values(f);
    letters.lemma_no_duplicates_injective(f);
    li.unique_seq_to_set();
    let rng = vstd::set_lib::set_int_range('a' as int, 'z' as int + 1);
    vstd::set_lib::lemma_int_range('a' as int, 'z' as int + 1);
    assert(li.to_set().subset_of(rng)) by {
        assert forall|x: int| li.to_set().contains(x) implies rng.contains(x) by {
            assert(li.contains(x));
            let k = choose|k: int| 0 <= k < li.len() && li[k] == x;
            assert(li[k] == f(letters[k]));
            assert(crate::is_lower_alpha(letters[k]));
        }
    }
    vstd::set_lib::lemma_len_subset(li.to_set(), rng);
}

/// Looks a letter up in the board alphabet.
fn letter_position(letters: &Vec<char>, c: char) -> (r: Option<usize>)
    requires
        letters@.no_duplicates(),
    ensures
        match r {
            Some(p) => {
                &&& p < letters@.len()
                &&& letters@[p as int] == c
                &&& letter_index(letters@, c) == p as int
            },
            None => !letters@.contains(c),
        },
{
    let mut k: usize = 0;
    while k < letters.len()
        invariant
            letters@.no_duplicates(),
            k <= letters@.len(),
            forall|m: int| 0 <= m < k ==> letters@[m] != c,
        decreases letters@.len() - k,
    {
        if letters[k] == c {
            proof {
                assert(letters@.contains(c)) by {
                    assert(letters@[k as int] == c);
                }
                let w = choose|w: int| 0 <= w < letters@.len() && letters@[w] == c;
                assert(letters@[w] == letters@[k as int]);
                assert(w == k as int);
            }
            return Some(k);
        }
        k = k + 1;
    }
    proof {
        if letters@.contains(c) {
            let w = choose|w: int| 0 <= w < letters@.len() && letters@[w] == c;
        }
    }
    None
}

impl Solver {
    /// Prepares the search: numbers the board letters in side order, masks
    /// every playable word by the letters it covers, and indexes the
    /// playable words by first letter. The solution cap is carried as given.
    pub fn new(board: Board, dictionary: &Dictionary, max_solutions: u16) -> (r: Solver)
        requires
            board.wf(),
            dictionary.words_wf(),
        ensures
            r.wf(),
            r.letters@ == crate::board::board_letters(board.sides_view()),
            r.max_solutions == max_solutions as usize,
            r.word_bitmaps@.len() == dictionary.words@.filter(
                |w: Word| word_playable(board.sides_view(), w),
            ).len(),
            forall|k: int|
                0 <= k < r.word_bitmaps@.len() ==> (#[trigger] r.word_bitmaps@[k]).word@
                    == dictionary.words@.filter(
                    |w: Word| word_playable(board.sides_view(), w),
                )[k].word@,
            forall|c: int, idx: int|
                0 <= c < r.letters@.len() && 0 <= idx < r.word_bitmaps@.len()
                    && (#[trigger] r.word_bitmaps@[idx]).word@[0] == #[trigger] r.letters@[c]
                    ==> r.words_by_first_letter@[c]@.contains(idx as usize),
            forall|c: int, m1: int, m2: int|
                #![trigger r.words_by_first_letter@[c]@[m1], r.words_by_first_letter@[c]@[m2]]
                0 <= c < r.letters@.len() && 0 <= m1 < m2 < r.words_by_first_letter@[c]@.len()
                    ==> r.words_by_first_letter@[c]@[m1] < r.words_by_first_letter@[c]@[m2],
    {
        let ghost sv = board.sides_view();
        let l = board.sides[0].as_str().unicode_len();
        proof {
            assert(forall|k: int| 0 <= k < 4 ==> (#[trigger] sv[k]).len() == l);
            assert(forall|k: int| 0 <= k < 4 ==> #[trigger] sv[k] == board.sides@[k]@);
        }
        // Assign each board letter its bit position, in side order.
        let mut letters: Vec<char> = Vec::new();
        let mut i: usize = 0;
        while i < 4
            invariant
                crate::board::sides_wf(sv),
                sv == board.sides_view(),
                board.sides@.len() == 4,
                l == sv[0].len(),
                forall|k: int| 0 <= k < 4 ==> (#[trigger] sv[k]).len() == l,
                forall|k: int| 0 <= k < 4 ==> #[trigger] sv[k] == board.sides@[k]@,
                i <= 4,
                letters@ == prefix_letters(sv, i as int),
            decreases 4 - i,
        {
            proof {
                assert(letters@ =~= prefix_letters(sv, i as int) + sv[i as int].take(0));
            }
            let mut j: usize = 0;
            while j < l
                invariant
                    crate::board::sides_wf(sv),
                    sv == board.sides_view(),
                    board.sides@.len() == 4,
                    l == sv[0].len(),
                    forall|k: int| 0 <= k < 4 ==> (#[trigger] sv[k]).len() == l,
                    forall|k: int| 0 <= k < 4 ==> #[trigger] sv[k] == board.sides@[k]@,
                    i < 4,
                    j <= l,
                    letters@ == prefix_letters(sv, i as int) + sv[i as int].take(j as int),
                decreases l - j,
            {
                let c = board.sides[i].as_str().get_char(j);
                letters.push(c);
                proof {
                    assert(letters@ =~= prefix_letters(sv, i as int) + sv[i as int].take(j + 1));
                }
                j = j + 1;
            }
            proof {
                assert(letters@ =~= prefix_letters(sv, i + 1)) by {
                    assert(sv[i as int].take(l as int) =~= sv[i as int]);
                }
            }
            i = i + 1;
        }
        proof {
            assert(letters@ =~= crate::board::board_letters(sv)) by {
                assert(letters@ == prefix_letters(sv, 4));
                assert(prefix_letters(sv, 0) == Seq::<char>::empty());
                assert(prefix_letters(sv, 1) == prefix_letters(sv, 0) + sv[0]);
                assert(prefix_letters(sv, 2) == prefix_letters(sv, 1) + sv[1]);
                assert(prefix_letters(sv, 3) == prefix_letters(sv, 2) + sv[2]);
                assert(prefix_letters(sv, 4) == prefix_letters(sv, 3) + sv[3]);
                assert(prefix_letters(sv, 4) =~= sv[0] + sv[1] + sv[2] + sv[3]);
            }
            lemma_board_letters_facts(sv);
            lemma_letters_at_most_26(letters@);
        }
        let n = letters.len();
        proof {
            let nu = n as u64;
            assert(nu <= 26 ==> (1u64 << nu) >= 1 && (1u64 << nu) - 1 <= 0xffff_ffffu64)
                by (bit_vector);
        }
        let all_letters_mask_wide: u64 = (1u64 << (n as u64)) - 1;
        let all_letters_mask: u32 = all_letters_mask_wide as u32;
        proof {
            assert(all_letters_mask == mask_all(letters@.len()));
        }
        // Mask every playable word by the letters it covers.
        let board_dictionary = board.playable_dictionary(dictionary);
        let ghost filtered = dictionary.words@.filter(
            |w: Word| word_playable(board.sides_view(), w),
        );
        proof {
            broadcast use vstd::seq_lib::group_filter_ensures;

            assert forall|k: int| 0 <= k < filtered.len() implies (#[trigger] filtered[k]).wf() by {
                assert(filtered.contains(filtered[k]));
                dictionary.words@.lemma_filter_contains_rev(
                    |w: Word| word_playable(board.sides_view(), w),
                    filtered[k],
                );
                assert(dictionary.words@.contains(filtered[k]));
                let m = choose|m: int|
                    0 <= m < dictionary.words@.len() && dictionary.words@[m] == filtered[k];
            }
        }
        let mut word_bitmaps: Vec<WordBitmap> = Vec::new();
        let mut k: usize = 0;
        while k < board_dictionary.words.len()
            invariant
                letters@.no_duplicates(),
                letters@.len() <= 26,
                words_like(board_dictionary.words@, filtered),
                forall|k2: int| 0 <= k2 < filtered.len() ==> (#[trigger] filtered[k2]).wf(),
                k <= board_dictionary.words@.len(),
                word_bitmaps@.len() == k,
                forall|k2: int|
                    0 <= k2 < k ==> valid_mask(
                        letters@,
                        (#[trigger] word_bitmaps@[k2]).word@,
                        word_bitmaps@[k2].bitmap,
                    ) && word_bitmaps@[k2].word@ == filtered[k2].word@
                        && word_bitmaps@[k2].word@.len() >= 1,
            decreases board_dictionary.words@.len() - k,
        {
            let ref w = board_dictionary.words[k];
            let wn = w.word.as_str().unicode_len();
            proof {
                assert(crate::board::word_like(
                    board_dictionary.words@[k as int],
                    filtered[k as int],
                ));
                assert(w.word@.len() >= 1);
            }
            let mut m: u32 = 0;
            let mut t: usize = 0;
            proof {
                assert(w.word@.take(0) =~= Seq::<char>::empty());
                assert forall|b: int| 0 <= b < 32 implies (#[trigger] bit_set(m, b) <==> (b
                    < letters@.len() && w.word@.take(0).contains(letters@[b]))) by {
                    lemma_bit_zero(b);
                }
            }
            while t < wn
                invariant
                    letters@.no_duplicates(),
                    letters@.len() <= 26,
                    w == board_dictionary.words@[k as int],
                    k < board_dictionary.words@.len(),
                    wn == w.word@.len(),
                    t <= wn,
                    forall|b: int|
                        0 <= b < 32 ==> (#[trigger] bit_set(m, b) <==> (b < letters@.len()
                            && w.word@.take(t as int).contains(letters@[b]))),
                decreases wn - t,
            {
                let c = w.word.as_str().get_char(t);
                let ghost m_pre = m;
                match letter_position(&letters, c) {
                    Some(p) => {
                        m = m | (1u32 << p);
                        proof {
                            assert forall|b: int| 0 <= b < 32 implies (#[trigger] bit_set(m, b)
                                <==> (b < letters@.len() && w.word@.take(t + 1).contains(
                                letters@[b],
                            ))) by {
                                lemma_bit_or(m_pre, 1u32 << (p as u32), b);
                                lemma_bit_single(p as int, b);
                                assert(w.word@.take(t + 1) =~= w.word@.take(t as int).push(c));
                                if bit_set(m, b) {
                                    if bit_set(m_pre, b) {
                                        assert(w.word@.take(t as int).contains(letters@[b]));
                                        assert(w.word@.take(t + 1).contains(letters@[b]));
                                    } else {
                                        assert(b == p as int);
                                        assert(letters@[b] == c);
                                        assert(w.word@.take(t + 1).contains(letters@[b]));
                                    }
                                }
                                if b < letters@.len() && w.word@.take(t + 1).contains(
                                    letters@[b],
                                ) {
                                    if w.word@.take(t as int).contains(letters@[b]) {
                                        assert(bit_set(m_pre, b));
                                    } else {
                                        assert(letters@[b] == c);
                                        assert(letters@[b] == letters@[p as int]);
                                        assert(b == p as int);
                                    }
                                }
                            }
                        }
                    },
                    None => {
                        proof {
                            assert forall|b: int| 0 <= b < 32 implies (#[trigger] bit_set(m, b)
                                <==> (b < letters@.len() && w.word@.take(t + 1).contains(
                                letters@[b],
                            ))) by {
                                assert(w.word@.take(t + 1) =~= w.word@.take(t as int).push(c));
                                if b < letters@.len() && w.word@.take(t + 1).contains(
                                    letters@[b],
                                ) {
                                    if !w.word@.take(t as int).contains(letters@[b]) {
                                        assert(letters@[b] == c);
                                        assert(letters@.contains(c));
                                    }
                                }
                            }
                        }
                    },
                }
                t = t + 1;
            }
            proof {
                assert(w.word@.take(wn as int) =~= w.word@);
            }
            let wb = WordBitmap { word: w.word.clone(), bitmap: m };
            word_bitmaps.push(wb);
            k = k + 1;
        }
        // Index the words by their first letter.
        let mut words_by_first_letter: Vec<Vec<usize>> = Vec::new();
        let mut p: usize = 0;
        while p < n
            invariant
                letters@.no_duplicates(),
                n == letters@.len(),
                p <= n,
                words_by_first_letter@.len() == p,
                forall|k2: int|
                    0 <= k2 < word_bitmaps@.len() ==> (#[trigger] word_bitmaps@[k2]).word@.len()
                        >= 1,
                forall|c: int, m2: int|
                    0 <= c < p && 0 <= m2 < words_by_first_letter@[c]@.len() ==> {
                        let idx = (#[trigger] words_by_first_letter@[c]@[m2]) as int;
                        &&& 0 <= idx < word_bitmaps@.len()
                        &&& word_bitmaps@[idx].word@.len() >= 1
                        &&& word_bitmaps@[idx].word@[0] == letters@[c]
                    },
                forall|c: int, idx: int|
                    0 <= c < p && 0 <= idx < word_bitmaps@.len() && (
                    #[trigger] word_bitmaps@[idx]).word@[0] == #[trigger] letters@[c]
                        ==> words_by_first_letter@[c]@.contains(idx as usize),
                forall|c: int, m1: int, m2: int|
                    #![trigger words_by_first_letter@[c]@[m1], words_by_first_letter@[c]@[m2]]
                    0 <= c < p && 0 <= m1 < m2 < words_by_first_letter@[c]@.len()
                        ==> words_by_first_letter@[c]@[m1] < words_by_first_letter@[c]@[m2],
            decreases n - p,
        {
            let mut lst: Vec<usize> = Vec::new();
            let mut idx: usize = 0;
            while idx < word_bitmaps.len()
                invariant
                    letters@.no_duplicates(),
                    n == letters@.len(),
                    p < n,
                    idx <= word_bitmaps@.len(),
                    forall|k2: int|
                        0 <= k2 < word_bitmaps@.len() ==> (#[trigger] word_bitmaps@[k2]).word@.len()
                            >= 1,
                    forall|m2: int|
                        0 <= m2 < lst@.len() ==> {
                            let w_idx = (#[trigger] lst@[m2]) as int;
                            &&& 0 <= w_idx < word_bitmaps@.len()
                            &&& word_bitmaps@[w_idx].word@.len() >= 1
                            &&& word_bitmaps@[w_idx].word@[0] == letters@[p as int]
                        },
                    forall|m2: int| 0 <= m2 < lst@.len() ==> (#[trigger] lst@[m2]) < idx,
                    forall|idx2: int|
                        0 <= idx2 < idx && (#[trigger] word_bitmaps@[idx2]).word@[0]
                            == letters@[p as int] ==> lst@.contains(idx2 as usize),
                    forall|m1: int, m2: int|
                        0 <= m1 < m2 < lst@.len() ==> lst@[m1] < lst@[m2],
                decreases word_bitmaps@.len() - idx,
            {
                let first = word_bitmaps[idx].word.as_str().get_char(0);
                let ghost lst_pre = lst@;
                if first == letters[p] {
                    lst.push(idx);
                    proof {
                        assert(lst@ == lst_pre.push(idx));
                        assert forall|m1: int, m2: int| 0 <= m1 < m2 < lst@.len() implies lst@[m1]
                            < lst@[m2] by {
                            if m2 < lst_pre.len() {
                                assert(lst@[m1] == lst_pre[m1] && lst@[m2] == lst_pre[m2]);
                            } else {
                                assert(lst@[m2] == idx);
                                assert(lst@[m1] == lst_pre[m1]);
                            }
                        }
                    }
                }
                proof {
                    assert forall|idx2: int|
                        0 <= idx2 < idx + 1 && (#[trigger] word_bitmaps@[idx2]).word@[0]
                            == letters@[p as int] implies lst@.contains(idx2 as usize) by {
                        if idx2 < idx {
                            assert(lst_pre.contains(idx2 as usize));
                            if first == letters@[p as int] {
                                let m = choose|m: int|
                                    0 <= m < lst_pre.len() && lst_pre[m] == idx2 as usize;
                                assert(lst@[m] == idx2 as usize);
                            }
                        } else {
                            assert(word_bitmaps@[idx as int].word@[0] == first);
                            assert(first == letters@[p as int]);
                            assert(lst@[lst@.len() - 1] == idx as usize);
                        }
                    }
                }
                idx = idx + 1;
            }
            words_by_first_letter.push(lst);
            p = p + 1;
        }
        let r = Solver {
            word_bitmaps,
            words_by_first_letter,
            letters,
            all_letters_mask,
            max_solutions: max_solutions as usize,
        };
        r
    }
}

impl Solver {
    /// The chains the depth-first search discovers, in discovery order, from
    /// a partial chain `path` that has covered the letters of `covered` and
    /// ended on `last`: a chain is emitted exactly when it covers the whole
    /// alphabet at precisely `target` words.
    pub open spec fn dfs(
        self,
        path: Seq<Seq<char>>,
        covered: u32,
        last: Option<char>,
        target: nat,
    ) -> Seq<Seq<Seq<char>>>
        decreases target - path.len(), self.candidates(last).len() + 1,
    {
        if covered == self.all_letters_mask && path.len() == target {
            seq![path]
        } else if path.len() >= target {
            Seq::empty()
        } else {
            self.dfs_list(path, covered, last, target, 0)
        }
    }

    /// The part of the search that walks the candidate words from position
    /// `k` on, trying each word that adds a new letter.
    pub open spec fn dfs_list(
        self,
        path: Seq<Seq<char>>,
        covered: u32,
        last: Option<char>,
        target: nat,
        k: int,
    ) -> Seq<Seq<Seq<char>>>
        decreases target - path.len(), self.candidates(last).len() - k,
    {
        let cands = self.candidates(last);
        if path.len() >= target || k < 0 || k >= cands.len() {
            Seq::empty()
        } else {
            let idx = cands[k] as int;
            let head = if 0 <= idx < self.word_bitmaps@.len() && (covered
                | self.word_bitmaps@[idx].bitmap) != covered {
                let wv = self.word_bitmaps@[idx].word@;
                self.dfs(
                    path.push(wv),
                    covered | self.word_bitmaps@[idx].bitmap,
                    Some(wv.last()),
                    target,
                )
            } else {
                Seq::empty()
            };
            head + self.dfs_list(path, covered, last, target, k + 1)
        }
    }

    /// One full pass at a fixed chain length, from an empty chain.
    pub open spec fn enum_target(self, target: nat) -> Seq<Seq<Seq<char>>> {
        self.dfs(Seq::empty(), 0, None, target)
    }

    /// The passes at chain lengths 1 through `t`, in that order.
    pub open spec fn enum_upto(self, t: int) -> Seq<Seq<Seq<char>>>
        decreases t,
    {
        if t <= 0 {
            Seq::empty()
        } else {
            self.enum_upto(t - 1) + self.enum_target(t as nat)
        }
    }

    /// Everything the search discovers: chain lengths 1 through 4, each
    /// fully explored before the next begins.
    pub open spec fn full_enumeration(self) -> Seq<Seq<Seq<char>>> {
        self.enum_upto(4)
    }

    /// What `solve` returns: the enumeration, cut off at the solution cap.
    pub open spec fn solve_result(self) -> Seq<Seq<Seq<char>>> {
        capped(self.full_enumeration(), self.max_solutions as int)
    }
}

/// The first `room` entries of `full`, or all of them if there is room.
pub open spec fn capped<A>(full: Seq<A>, room: int) -> Seq<A> {
    if room <= 0 {
        Seq::empty()
    } else if full.len() <= room {
        full
    } else {
        full.take(room)
    }
}

/// Capping a concatenation caps the first part, then the second with the
/// room that is left.
proof fn lemma_capped_concat<A>(a: Seq<A>, b: Seq<A>, room: int)
    ensures
        capped(a + b, room) == capped(a, room) + capped(b, room - capped(a, room).len()),
{
    if room <= 0 {
        assert(capped(a + b, room) =~= capped(a, room) + capped(b, room - capped(a, room).len()));
    } else if a.len() + b.len() <= room {
        assert(capped(a + b, room) == a + b);
        assert(capped(a, room) == a);
        assert(capped(b, room - a.len()) == b);
    } else if a.len() <= room {
        assert(capped(a, room) == a);
        assert(capped(a + b, room) == (a + b).take(room));
        assert((a + b).take(room) =~= a + b.take(room - a.len()));
        assert(capped(b, room - a.len()) =~= b.take(room - a.len()));
    } else {
        assert(capped(a, room) == a.take(room));
        assert(capped(a + b, room) == (a + b).take(room));
        assert((a + b).take(room) =~= a.take(room));
        assert(capped(b, room - room) =~= Seq::<A>::empty());
        assert(capped(a + b, room) =~= capped(a, room) + capped(b, room - capped(a, room).len()));
    }
}

impl Solver {
    /// The depth-first search itself. Stops descending at the target length,
    /// skips words that cover nothing new, and appends discoveries to
    /// `solutions` until the cap is reached: afterwards `solutions` holds
    /// what it held plus the emitted chains, cut off at the cap.
    fn search_recursive(
        &self,
        current_path: &mut Vec<String>,
        covered_bitmap: u32,
        last_char: Option<char>,
        solutions: &mut Vec<Solution>,
        target_words: usize,
    )
        requires
            self.wf(),
            old(current_path)@.len() <= target_words,
            sols_scored(old(solutions)@),
        ensures
            final(current_path)@ == old(current_path)@,
            sols_scored(final(solutions)@),
            sol_views(final(solutions)@) == sol_views(old(solutions)@) + capped(
                self.dfs(
                    chain_view(old(current_path)@),
                    covered_bitmap,
                    last_char,
                    target_words as nat,
                ),
                self.max_solutions - old(solutions)@.len(),
            ),
        decreases target_words - old(current_path)@.len(),
    {
        let ghost path0 = chain_view(current_path@);
        let ghost sols0 = solutions@;
        let ghost full = self.dfs(path0, covered_bitmap, last_char, target_words as nat);
        if solutions.len() >= self.max_solutions {
            proof {
                assert(capped(full, self.max_solutions - sols0.len()) =~= Seq::<
                    Seq<Seq<char>>,
                >::empty());
                assert(sol_views(solutions@) =~= sol_views(sols0) + capped(
                    full,
                    self.max_solutions - sols0.len(),
                ));
            }
            return ;
        }
        if covered_bitmap == self.all_letters_mask && current_path.len() == target_words {
            let chain = clone_strings(current_path);
            solutions.push(Solution::new(chain));
            proof {
                assert(full == seq![path0]);
                assert(capped(full, self.max_solutions - sols0.len()) == full);
                assert(sol_views(solutions@) =~= sol_views(sols0) + capped(
                    full,
                    self.max_solutions - sols0.len(),
                ));
            }
            return ;
        }
        if current_path.len() >= target_words {
            proof {
                assert(full =~= Seq::<Seq<Seq<char>>>::empty());
                assert(sol_views(solutions@) =~= sol_views(sols0) + capped(
                    full,
                    self.max_solutions - sols0.len(),
                ));
            }
            return ;
        }
        let cands = self.candidates_exec(last_char);
        let mut k: usize = 0;
        proof {
            assert(full == self.dfs_list(path0, covered_bitmap, last_char, target_words as nat, 0));
        }
        while k < cands.len()
            invariant
                self.wf(),
                cands@ == self.candidates(last_char),
                current_path@ == old(current_path)@,
                path0 == chain_view(current_path@),
                current_path@.len() < target_words,
                sols_scored(solutions@),
                k <= cands@.len(),
                sols0.len() <= solutions@.len(),
                sol_views(solutions@) + capped(
                    self.dfs_list(
                        path0,
                        covered_bitmap,
                        last_char,
                        target_words as nat,
                        k as int,
                    ),
                    self.max_solutions - solutions@.len(),
                ) == sol_views(sols0) + capped(
                    self.dfs_list(path0, covered_bitmap, last_char, target_words as nat, 0),
                    self.max_solutions - sols0.len(),
                ),
            decreases cands@.len() - k,
        {
            let idx = cands[k];
            proof {
                if last_char is Some {
                    let c = last_char->0;
                    assert(self.candidates(last_char)[k as int] == cands@[k as int]);
                }
                assert(idx < self.word_bitmaps@.len()) by {
                    match last_char {
                        None => {},
                        Some(c) => {
                            assert(self.letters@.contains(c));
                            assert(cands@[k as int] == self.words_by_first_letter@[letter_index(
                                self.letters@,
                                c,
                            )]@[k as int]);
                        },
                    }
                }
            }
            let wb_bitmap = self.word_bitmaps[idx].bitmap;
            let new_bitmap = covered_bitmap | wb_bitmap;
            let ghost tail_pre = self.dfs_list(
                path0,
                covered_bitmap,
                last_char,
                target_words as nat,
                k as int,
            );
            let ghost child = if (covered_bitmap | self.word_bitmaps@[idx as int].bitmap)
                != covered_bitmap {
                self.dfs(
                    path0.push(self.word_bitmaps@[idx as int].word@),
                    covered_bitmap | self.word_bitmaps@[idx as int].bitmap,
                    Some(self.word_bitmaps@[idx as int].word@.last()),
                    target_words as nat,
                )
            } else {
                Seq::<Seq<Seq<char>>>::empty()
            };
            proof {
                assert(tail_pre == child + self.dfs_list(
                    path0,
                    covered_bitmap,
                    last_char,
                    target_words as nat,
                    k + 1,
                ));
            }
            if new_bitmap != covered_bitmap {
                let word = self.word_bitmaps[idx].word.clone();
                let wn = word.as_str().unicode_len();
                let new_last = word.as_str().get_char(wn - 1);
                proof {
                    assert(new_last == self.word_bitmaps@[idx as int].word@.last());
                }
                let ghost sols_before = solutions@;
                current_path.push(word);
                proof {
                    assert(chain_view(current_path@) =~= path0.push(
                        self.word_bitmaps@[idx as int].word@,
                    ));
                }
                let ghost pushed = current_path@;
                self.search_recursive(
                    current_path,
                    new_bitmap,
                    Some(new_last),
                    solutions,
                    target_words,
                );
                current_path.pop();
                proof {
                    assert(pushed.subrange(0, pushed.len() - 1) =~= old(current_path)@);
                    assert(current_path@ == old(current_path)@);
                    assert(sol_views(solutions@) == sol_views(sols_before) + capped(
                        child,
                        self.max_solutions - sols_before.len(),
                    ));
                    lemma_capped_concat(
                        child,
                        self.dfs_list(
                            path0,
                            covered_bitmap,
                            last_char,
                            target_words as nat,
                            k + 1,
                        ),
                        self.max_solutions - sols_before.len(),
                    );
                    assert(solutions@.len() == sols_before.len() + capped(
                        child,
                        self.max_solutions - sols_before.len(),
                    ).len()) by {
                        assert(sol_views(solutions@).len() == solutions@.len());
                        assert(sol_views(sols_before).len() == sols_before.len());
                    }
                }
            } else {
                proof {
                    assert(child =~= Seq::<Seq<Seq<char>>>::empty());
                    assert(tail_pre =~= self.dfs_list(
                        path0,
                        covered_bitmap,
                        last_char,
                        target_words as nat,
                        k + 1,
                    ));
                }
            }
            k = k + 1;
        }
        proof {
            assert(self.dfs_list(
                path0,
                covered_bitmap,
                last_char,
                target_words as nat,
                cands@.len() as int,
            ) =~= Seq::<Seq<Seq<char>>>::empty());
            assert(capped(
                Seq::<Seq<Seq<char>>>::empty(),
                self.max_solutions - solutions@.len(),
            ) =~= Seq::<Seq<Seq<char>>>::empty());
            assert(sol_views(solutions@) =~= sol_views(solutions@) + Seq::<
                Seq<Seq<char>>,
            >::empty());
        }
    }

    /// The candidate word indices for the next link, as a fresh vector.
    fn candidates_exec(&self, last: Option<char>) -> (r: Vec<usize>)
        requires
            self.wf(),
        ensures
            r@ == self.candidates(last),
    {
        match last {
            None => {
                let mut r: Vec<usize> = Vec::new();
                let mut k: usize = 0;
                while k < self.word_bitmaps.len()
                    invariant
                        k <= self.word_bitmaps@.len(),
                        r@.len() == k,
                        forall|m: int| 0 <= m < k ==> #[trigger] r@[m] == m as usize,
                    decreases self.word_bitmaps@.len() - k,
                {
                    r.push(k);
                    k = k + 1;
                }
                proof {
                    assert(r@ =~= self.candidates(None));
                }
                r
            },
            Some(c) => {
                match letter_position(&self.letters, c) {
                    Some(p) => {
                        let src = &self.words_by_first_letter[p];
                        let mut r: Vec<usize> = Vec::new();
                        let mut k: usize = 0;
                        while k < src.len()
                            invariant
                                src == self.words_by_first_letter@[p as int],
                                k <= src@.len(),
                                r@ == src@.take(k as int),
                            decreases src@.len() - k,
                        {
                            r.push(src[k]);
                            proof {
                                assert(r@ =~= src@.take(k + 1));
                            }
                            k = k + 1;
                        }
                        proof {
                            assert(src@.take(src@.len() as int) =~= src@);
                            assert(letter_index(self.letters@, c) == p as int);
                        }
                        r
                    },
                    None => {
                        let r: Vec<usize> = Vec::new();
                        proof {
                            assert(r@ =~= self.candidates(Some(c)));
                        }
                        r
                    },
                }
            },
        }
    }
}

/// Copies a chain of words, string by string.
fn clone_strings(v: &Vec<String>) -> (r: Vec<String>)
    ensures
        chain_view(r@) == chain_view(v@),
        r@.len() == v@.len(),
{
    let mut r: Vec<String> = Vec::new();
    let mut k: usize = 0;
    while k < v.len()
        invariant
            k <= v@.len(),
            r@.len() == k,
            forall|m: int| 0 <= m < k ==> (#[trigger] r@[m])@ == v@[m]@,
        decreases v@.len() - k,
    {
        let w = v[k].clone();
        r.push(w);
        k = k + 1;
    }
    proof {
        assert(chain_view(r@) =~= chain_view(v@));
    }
    r
}

impl Solver {
    /// Once the cap is reached, later passes add nothing.
    proof fn lemma_capped_saturated(self, t: int, t2: int)
        requires
            0 <= t <= t2,
            capped(self.enum_upto(t), self.max_solutions as int).len() >= self.max_solutions,
        ensures
            capped(self.enum_upto(t2), self.max_solutions as int) == capped(
                self.enum_upto(t),
                self.max_solutions as int,
            ),
        decreases t2 - t,
    {
        if t2 > t {
            self.lemma_capped_saturated(t, t2 - 1);
            lemma_capped_concat(
                self.enum_upto(t2 - 1),
                self.enum_target(t2 as nat),
                self.max_solutions as int,
            );
            assert(capped(
                self.enum_target(t2 as nat),
                self.max_solutions - capped(
                    self.enum_upto(t2 - 1),
                    self.max_solutions as int,
                ).len(),
            ) =~= Seq::<Seq<Seq<char>>>::empty()) by {
                assert(capped(self.enum_upto(t2 - 1), self.max_solutions as int).len()
                    >= self.max_solutions);
            }
            assert(capped(self.enum_upto(t2), self.max_solutions as int) =~= capped(
                self.enum_upto(t2 - 1),
                self.max_solutions as int,
            ));
        }
    }

    /// Runs the search to completion or to the solution cap: chain lengths
    /// one to four, shorter lengths fully explored first, each found chain
    /// scored by its length, never more than `max_solutions` results.
    pub fn solve(&self) -> (r: Vec<Solution>)
        requires
            self.wf(),
        ensures
            sol_views(r@) == self.solve_result(),
            r@.len() <= self.max_solutions,
            sols_scored(r@),
    {
        let mut solutions: Vec<Solution> = Vec::new();
        let mut target_words: usize = 1;
        let mut done = false;
        proof {
            assert(self.enum_upto(0) == Seq::<Seq<Seq<char>>>::empty());
            assert(sol_views(solutions@) =~= capped(
                self.enum_upto(0),
                self.max_solutions as int,
            ));
        }
        while target_words <= 4 && !done
            invariant
                self.wf(),
                1 <= target_words <= 5,
                sols_scored(solutions@),
                done ==> solutions@.len() >= self.max_solutions,
                sol_views(solutions@) == capped(
                    self.enum_upto(target_words - 1),
                    self.max_solutions as int,
                ),
            decreases 5 - target_words,
        {
            let mut current_path: Vec<String> = Vec::new();
            let ghost sols_before = solutions@;
            self.search_recursive(&mut current_path, 0, None, &mut solutions, target_words);
            proof {
                assert(chain_view(Seq::<String>::empty()) =~= Seq::<Seq<char>>::empty());
                assert(sol_views(solutions@) == sol_views(sols_before) + capped(
                    self.enum_target(target_words as nat),
                    self.max_solutions - sols_before.len(),
                ));
                lemma_capped_concat(
                    self.enum_upto(target_words - 1),
                    self.enum_target(target_words as nat),
                    self.max_solutions as int,
                );
                assert(sols_before.len() == sol_views(sols_before).len());
                assert(sol_views(solutions@) == capped(
                    self.enum_upto(target_words as int),
                    self.max_solutions as int,
                ));
            }
            if solutions.len() >= self.max_solutions {
                done = true;
            }
            target_words = target_words + 1;
        }
        proof {
            assert(solutions@.len() == sol_views(solutions@).len());
            if target_words == 5 {
                assert(sol_views(solutions@) == self.solve_result());
            } else {
                assert(solutions@.len() >= self.max_solutions);
                self.lemma_capped_saturated(target_words - 1, 4);
            }
            assert(self.solve_result().len() <= self.max_solutions);
        }
        solutions
    }
}

/// `a` is an initial segment of `b`.
pub open spec fn is_prefix<A>(a: Seq<A>, b: Seq<A>) -> bool {
    a.len() <= b.len() && a == b.take(a.len() as int)
}

proof fn lemma_prefix_refl<A>(a: Seq<A>)
    ensures
        is_prefix(a, a),
{
    assert(a.take(a.len() as int) =~= a);
}

proof fn lemma_prefix_concat<A>(a: Seq<A>, b: Seq<A>)
    ensures
        is_prefix(a, a + b),
{
    assert((a + b).take(a.len() as int) =~= a);
}

proof fn lemma_prefix_trans<A>(a: Seq<A>, b: Seq<A>, c: Seq<A>)
    requires
        is_prefix(a, b),
        is_prefix(b, c),
    ensures
        is_prefix(a, c),
{
    assert(c.take(a.len() as int) =~= c.take(b.len() as int).take(a.len() as int));
}

/// A caller-supplied consumer of result batches, fed by the streaming
/// search as each pass finishes.
pub trait SolutionSink {
    /// Takes one batch of freshly found solutions.
    fn deliver(&mut self, batch: &Vec<Solution>);
}

impl Solver {
    /// The search of `search_recursive`, polled: before each candidate
    /// expansion the token is consulted, and a set token aborts the whole
    /// search. Aborted or not, what has been delivered so far stays: the
    /// result extends the given list by a prefix, in discovery order, of
    /// what the unpolled search would have appended.
    fn search_cancellable(
        &self,
        current_path: &mut Vec<String>,
        covered_bitmap: u32,
        last_char: Option<char>,
        solutions: &mut Vec<Solution>,
        target_words: usize,
        token: &CancelToken,
    ) -> (cancelled: bool)
        requires
            self.wf(),
            old(current_path)@.len() <= target_words,
            sols_scored(old(solutions)@),
        ensures
            final(current_path)@ == old(current_path)@,
            sols_scored(final(solutions)@),
            is_prefix(sol_views(old(solutions)@), sol_views(final(solutions)@)),
            is_prefix(
                sol_views(final(solutions)@),
                sol_views(old(solutions)@) + capped(
                    self.dfs(
                        chain_view(old(current_path)@),
                        covered_bitmap,
                        last_char,
                        target_words as nat,
                    ),
                    self.max_solutions - old(solutions)@.len(),
                ),
            ),
            !cancelled ==> sol_views(final(solutions)@) == sol_views(old(solutions)@) + capped(
                self.dfs(
                    chain_view(old(current_path)@),
                    covered_bitmap,
                    last_char,
                    target_words as nat,
                ),
                self.max_solutions - old(solutions)@.len(),
            ),
        decreases target_words - old(current_path)@.len(),
    {
        let ghost path0 = chain_view(current_path@);
        let ghost sols0 = solutions@;
        let ghost full = self.dfs(path0, covered_bitmap, last_char, target_words as nat);
        let ghost goal = sol_views(sols0) + capped(full, self.max_solutions - sols0.len());
        if solutions.len() >= self.max_solutions {
            proof {
                assert(capped(full, self.max_solutions - sols0.len()) =~= Seq::<
                    Seq<Seq<char>>,
                >::empty());
                assert(sol_views(solutions@) =~= goal);
                assert(sol_views(solutions@).take(sol_views(sols0).len() as int) =~= sol_views(
                    sols0,
                ));
                lemma_prefix_refl(goal);
                assert(is_prefix(sol_views(solutions@), goal));
            }
            return false;
        }
        if covered_bitmap == self.all_letters_mask && current_path.len() == target_words {
            let chain = clone_strings(current_path);
            solutions.push(Solution::new(chain));
            proof {
                assert(full == seq![path0]);
                assert(capped(full, self.max_solutions - sols0.len()) == full);
                assert(sol_views(solutions@) =~= goal);
                assert(sol_views(solutions@).take(sol_views(sols0).len() as int) =~= sol_views(
                    sols0,
                ));
                lemma_prefix_refl(goal);
                assert(is_prefix(sol_views(solutions@), goal));
            }
            return false;
        }
        if current_path.len() >= target_words {
            proof {
                assert(full =~= Seq::<Seq<Seq<char>>>::empty());
                assert(sol_views(solutions@) =~= goal);
                assert(sol_views(solutions@).take(sol_views(sols0).len() as int) =~= sol_views(
                    sols0,
                ));
                lemma_prefix_refl(goal);
                assert(is_prefix(sol_views(solutions@), goal));
            }
            return false;
        }
        let cands = self.candidates_exec(last_char);
        let mut k: usize = 0;
        proof {
            assert(full == self.dfs_list(path0, covered_bitmap, last_char, target_words as nat, 0));
            assert(sol_views(solutions@).take(sol_views(sols0).len() as int) =~= sol_views(sols0));
        }
        while k < cands.len()
            invariant
                self.wf(),
                cands@ == self.candidates(last_char),
                current_path@ == old(current_path)@,
                path0 == chain_view(current_path@),
                sols0 == old(solutions)@,
                current_path@.len() < target_words,
                sols_scored(solutions@),
                k <= cands@.len(),
                sols0.len() <= solutions@.len(),
                is_prefix(sol_views(sols0), sol_views(solutions@)),
                goal == sol_views(sols0) + capped(
                    self.dfs(
                        chain_view(old(current_path)@),
                        covered_bitmap,
                        last_char,
                        target_words as nat,
                    ),
                    self.max_solutions - old(solutions)@.len(),
                ),
                goal == sol_views(sols0) + capped(
                    self.dfs_list(path0, covered_bitmap, last_char, target_words as nat, 0),
                    self.max_solutions - sols0.len(),
                ),
                sol_views(solutions@) + capped(
                    self.dfs_list(
                        path0,
                        covered_bitmap,
                        last_char,
                        target_words as nat,
                        k as int,
                    ),
                    self.max_solutions - solutions@.len(),
                ) == goal,
            decreases cands@.len() - k,
        {
            if token.is_cancelled() {
                proof {
                    lemma_prefix_concat(
                        sol_views(solutions@),
                        capped(
                            self.dfs_list(
                                path0,
                                covered_bitmap,
                                last_char,
                                target_words as nat,
                                k as int,
                            ),
                            self.max_solutions - solutions@.len(),
                        ),
                    );
                }
                return true;
            }
            let idx = cands[k];
            proof {
                assert(idx < self.word_bitmaps@.len()) by {
                    match last_char {
                        None => {},
                        Some(c) => {
                            assert(self.letters@.contains(c));
                            assert(cands@[k as int] == self.words_by_first_letter@[letter_index(
                                self.letters@,
                                c,
                            )]@[k as int]);
                        },
                    }
                }
            }
            let wb_bitmap = self.word_bitmaps[idx].bitmap;
            let new_bitmap = covered_bitmap | wb_bitmap;
            let ghost child = if (covered_bitmap | self.word_bitmaps@[idx as int].bitmap)
                != covered_bitmap {
                self.dfs(
                    path0.push(self.word_bitmaps@[idx as int].word@),
                    covered_bitmap | self.word_bitmaps@[idx as int].bitmap,
                    Some(self.word_bitmaps@[idx as int].word@.last()),
                    target_words as nat,
                )
            } else {
                Seq::<Seq<Seq<char>>>::empty()
            };
            proof {
                assert(self.dfs_list(
                    path0,
                    covered_bitmap,
                    last_char,
                    target_words as nat,
                    k as int,
                ) == child + self.dfs_list(
                    path0,
                    covered_bitmap,
                    last_char,
                    target_words as nat,
                    k + 1,
                ));
            }
            if new_bitmap != covered_bitmap {
                let word = self.word_bitmaps[idx].word.clone();
                let wn = word.as_str().unicode_len();
                let new_last = word.as_str().get_char(wn - 1);
                proof {
                    assert(new_last == self.word_bitmaps@[idx as int].word@.last());
                }
                let ghost sols_before = solutions@;
                current_path.push(word);
                proof {
                    assert(chain_view(current_path@) =~= path0.push(
                        self.word_bitmaps@[idx as int].word@,
                    ));
                }
                let aborted = self.search_cancellable(
                    current_path,
                    new_bitmap,
                    Some(new_last),
                    solutions,
                    target_words,
                    token,
                );
                let ghost pushed = current_path@;
                current_path.pop();
                proof {
                    assert(pushed.subrange(0, pushed.len() - 1) =~= old(current_path)@);
                    assert(current_path@ == old(current_path)@);
                    lemma_capped_concat(
                        child,
                        self.dfs_list(
                            path0,
                            covered_bitmap,
                            last_char,
                            target_words as nat,
                            k + 1,
                        ),
                        self.max_solutions - sols_before.len(),
                    );
                    assert(sol_views(sols_before).len() == sols_before.len());
                    assert(sol_views(solutions@).len() == solutions@.len());
                }
                proof {
                    lemma_prefix_concat(
                        sol_views(sols_before),
                        capped(child, self.max_solutions - sols_before.len()),
                    );
                    lemma_prefix_trans(
                        sol_views(sols0),
                        sol_views(sols_before),
                        sol_views(sols_before) + capped(
                            child,
                            self.max_solutions - sols_before.len(),
                        ),
                    );
                    if !aborted {
                        assert(sol_views(solutions@) == sol_views(sols_before) + capped(
                            child,
                            self.max_solutions - sols_before.len(),
                        ));
                        assert(is_prefix(sol_views(sols0), sol_views(solutions@)));
                    }
                }
                if aborted {
                    proof {
                        // What was found is a prefix of this child's share,
                        // and that share sits at the front of the rest.
                        let child_cap = capped(child, self.max_solutions - sols_before.len());
                        let rest = capped(
                            self.dfs_list(
                                path0,
                                covered_bitmap,
                                last_char,
                                target_words as nat,
                                k + 1,
                            ),
                            self.max_solutions - sols_before.len() - child_cap.len(),
                        );
                        lemma_prefix_concat(sol_views(sols_before) + child_cap, rest);
                        assert((sol_views(sols_before) + child_cap) + rest =~= goal);
                        lemma_prefix_trans(
                            sol_views(solutions@),
                            sol_views(sols_before) + child_cap,
                            goal,
                        );
                        lemma_prefix_trans(
                            sol_views(sols0),
                            sol_views(sols_before),
                            sol_views(solutions@),
                        );
                    }
                    return true;
                }
            } else {
                proof {
                    assert(child =~= Seq::<Seq<Seq<char>>>::empty());
                    assert(child + self.dfs_list(
                        path0,
                        covered_bitmap,
                        last_char,
                        target_words as nat,
                        k + 1,
                    ) =~= self.dfs_list(
                        path0,
                        covered_bitmap,
                        last_char,
                        target_words as nat,
                        k + 1,
                    ));
                }
            }
            k = k + 1;
        }
        proof {
            assert(self.dfs_list(
                path0,
                covered_bitmap,
                last_char,
                target_words as nat,
                cands@.len() as int,
            ) =~= Seq::<Seq<Seq<char>>>::empty());
            assert(capped(
                Seq::<Seq<Seq<char>>>::empty(),
                self.max_solutions - solutions@.len(),
            ) =~= Seq::<Seq<Seq<char>>>::empty());
            assert(sol_views(solutions@) =~= sol_views(solutions@) + Seq::<
                Seq<Seq<char>>,
            >::empty());
            assert(sol_views(solutions@) == goal);
            lemma_prefix_refl(goal);
        }
        false
    }

    /// Capping a longer enumeration only appends.
    proof fn lemma_capped_monotone(self, t: int, t2: int)
        requires
            0 <= t <= t2,
        ensures
            is_prefix(
                capped(self.enum_upto(t), self.max_solutions as int),
                capped(self.enum_upto(t2), self.max_solutions as int),
            ),
        decreases t2 - t,
    {
        if t == t2 {
            assert(capped(self.enum_upto(t), self.max_solutions as int).take(
                capped(self.enum_upto(t), self.max_solutions as int).len() as int,
            ) =~= capped(self.enum_upto(t), self.max_solutions as int));
        } else {
            self.lemma_capped_monotone(t, t2 - 1);
            lemma_capped_concat(
                self.enum_upto(t2 - 1),
                self.enum_target(t2 as nat),
                self.max_solutions as int,
            );
            lemma_prefix_concat(
                capped(self.enum_upto(t2 - 1), self.max_solutions as int),
                capped(
                    self.enum_target(t2 as nat),
                    self.max_solutions - capped(
                        self.enum_upto(t2 - 1),
                        self.max_solutions as int,
                    ).len(),
                ),
            );
            lemma_prefix_trans(
                capped(self.enum_upto(t), self.max_solutions as int),
                capped(self.enum_upto(t2 - 1), self.max_solutions as int),
                capped(self.enum_upto(t2), self.max_solutions as int),
            );
        }
    }

    /// The buffered cancellable search: the same search as `solve`, but the
    /// token is polled before each candidate expansion, and cancellation
    /// returns what was accumulated: always a prefix, in discovery order, of
    /// the uncancelled result.
    pub fn solve_cancellable(&self, token: &CancelToken) -> (r: Vec<Solution>)
        requires
            self.wf(),
        ensures
            sols_scored(r@),
            r@.len() <= self.max_solutions,
            is_prefix(sol_views(r@), self.solve_result()),
    {
        let mut solutions: Vec<Solution> = Vec::new();
        let mut target_words: usize = 1;
        let mut done = false;
        let ghost mut cancelled = false;
        proof {
            assert(self.enum_upto(0) == Seq::<Seq<Seq<char>>>::empty());
            assert(sol_views(solutions@) =~= capped(
                self.enum_upto(0),
                self.max_solutions as int,
            ));
        }
        while target_words <= 4 && !done
            invariant
                self.wf(),
                1 <= target_words <= 5,
                sols_scored(solutions@),
                done ==> (cancelled || solutions@.len() >= self.max_solutions),
                cancelled ==> done,
                !cancelled ==> sol_views(solutions@) == capped(
                    self.enum_upto(target_words - 1),
                    self.max_solutions as int,
                ),
                cancelled ==> is_prefix(
                    sol_views(solutions@),
                    capped(self.enum_upto(target_words - 1), self.max_solutions as int),
                ),
            decreases 5 - target_words,
        {
            let mut current_path: Vec<String> = Vec::new();
            let ghost sols_before = solutions@;
            let aborted = self.search_cancellable(
                &mut current_path,
                0,
                None,
                &mut solutions,
                target_words,
                token,
            );
            proof {
                assert(chain_view(Seq::<String>::empty()) =~= Seq::<Seq<char>>::empty());
                lemma_capped_concat(
                    self.enum_upto(target_words - 1),
                    self.enum_target(target_words as nat),
                    self.max_solutions as int,
                );
                assert(sols_before.len() == sol_views(sols_before).len());
                if !aborted {
                    assert(sol_views(solutions@) == capped(
                        self.enum_upto(target_words as int),
                        self.max_solutions as int,
                    ));
                } else {
                    // Cancellation struck during this pass.
                    assert(is_prefix(
                        sol_views(solutions@),
                        sol_views(sols_before) + capped(
                            self.enum_target(target_words as nat),
                            self.max_solutions - sols_before.len(),
                        ),
                    ));
                    assert(sol_views(sols_before) + capped(
                        self.enum_target(target_words as nat),
                        self.max_solutions - sols_before.len(),
                    ) == capped(self.enum_upto(target_words as int), self.max_solutions as int));
                }
            }
            if aborted {
                proof {
                    cancelled = true;
                }
                done = true;
            } else if solutions.len() >= self.max_solutions {
                done = true;
            }
            target_words = target_words + 1;
        }
        proof {
            assert(solutions@.len() == sol_views(solutions@).len());
            self.lemma_capped_monotone(target_words - 1, 4);
            if !cancelled {
                if target_words == 5 {
                } else {
                    assert(solutions@.len() >= self.max_solutions);
                    self.lemma_capped_saturated(target_words - 1, 4);
                }
                assert(capped(self.enum_upto(4), self.max_solutions as int).take(
                    sol_views(solutions@).len() as int,
                ) =~= sol_views(solutions@));
            } else {
                lemma_prefix_trans(
                    sol_views(solutions@),
                    capped(self.enum_upto(target_words - 1), self.max_solutions as int),
                    capped(self.enum_upto(4), self.max_solutions as int),
                );
            }
            assert(self.solve_result().len() <= self.max_solutions);
        }
        solutions
    }
}

/// Copies the solutions from `start` on, for handing out as a batch.
fn copy_solutions_from(v: &Vec<Solution>, start: usize) -> (r: Vec<Solution>)
    requires
        start <= v@.len(),
        sols_scored(v@),
    ensures
        sol_views(r@) == sol_views(v@).skip(start as int),
        sols_scored(r@),
{
    let mut r: Vec<Solution> = Vec::new();
    let mut k: usize = start;
    while k < v.len()
        invariant
            start <= k <= v@.len(),
            sols_scored(v@),
            sols_scored(r@),
            r@.len() == k - start,
            forall|m: int|
                0 <= m < r@.len() ==> chain_view((#[trigger] r@[m]).words@) == chain_view(
                    v@[m + start].words@,
                ),
        decreases v@.len() - k,
    {
        let chain = clone_strings(&v[k].words);
        r.push(Solution::new(chain));
        k = k + 1;
    }
    proof {
        assert(sol_views(r@) =~= sol_views(v@).skip(start as int));
    }
    r
}

impl Solver {
    /// The streaming search: the same passes as `solve`, but each pass's
    /// fresh discoveries go to the caller's sink as one batch, and the token
    /// is polled after each batch; a set token ends the search. Returns how
    /// many solutions were delivered: the length of the capped enumeration
    /// up to the last completed pass.
    pub fn solve_streaming<S: SolutionSink>(
        &self,
        on_batch: &mut S,
        token: &CancelToken,
    ) -> (r: usize)
        requires
            self.wf(),
        ensures
            r <= self.max_solutions,
            exists|t: int|
                1 <= t <= 4 && r == capped(
                    #[trigger] self.enum_upto(t),
                    self.max_solutions as int,
                ).len(),
    {
        let mut solutions: Vec<Solution> = Vec::new();
        let mut target_words: usize = 1;
        let mut done = false;
        proof {
            assert(self.enum_upto(0) == Seq::<Seq<Seq<char>>>::empty());
            assert(sol_views(solutions@) =~= capped(
                self.enum_upto(0),
                self.max_solutions as int,
            ));
        }
        while target_words <= 4 && !done
            invariant
                self.wf(),
                1 <= target_words <= 5,
                sols_scored(solutions@),
                done ==> solutions@.len() >= self.max_solutions,
                done ==> 2 <= target_words,
                sol_views(solutions@) == capped(
                    self.enum_upto(target_words - 1),
                    self.max_solutions as int,
                ),
            decreases 5 - target_words,
        {
            let prev_len = solutions.len();
            let mut current_path: Vec<String> = Vec::new();
            let ghost sols_before = solutions@;
            self.search_recursive(&mut current_path, 0, None, &mut solutions, target_words);
            proof {
                assert(chain_view(Seq::<String>::empty()) =~= Seq::<Seq<char>>::empty());
                lemma_capped_concat(
                    self.enum_upto(target_words - 1),
                    self.enum_target(target_words as nat),
                    self.max_solutions as int,
                );
                assert(sols_before.len() == sol_views(sols_before).len());
                assert(sol_views(solutions@) == capped(
                    self.enum_upto(target_words as int),
                    self.max_solutions as int,
                ));
                assert(solutions@.len() == sol_views(solutions@).len());
            }
            let batch = copy_solutions_from(&solutions, prev_len);
            on_batch.deliver(&batch);
            if token.is_cancelled() {
                let count = solutions.len();
                proof {
                    assert(count == capped(
                        self.enum_upto(target_words as int),
                        self.max_solutions as int,
                    ).len());
                    assert(capped(self.enum_upto(target_words as int), self.max_solutions as int)
                        .len() <= self.max_solutions);
                }
                return count;
            }
            if solutions.len() >= self.max_solutions {
                done = true;
            }
            target_words = target_words + 1;
        }
        let count = solutions.len();
        proof {
            assert(count == sol_views(solutions@).len());
            if done {
                self.lemma_capped_saturated(target_words - 1, 4);
                assert(count == capped(self.enum_upto(4), self.max_solutions as int).len());
            } else {
                assert(target_words == 5);
                assert(count == capped(self.enum_upto(4), self.max_solutions as int).len());
            }
            assert(capped(self.enum_upto(4), self.max_solutions as int).len()
                <= self.max_solutions);
        }
        count
    }
}

/// Every word of the chain is one of the solver's playable words.
pub open spec fn chain_words_known(s: Solver, sol: Seq<Seq<char>>) -> bool {
    forall|i: int|
        0 <= i < sol.len() ==> exists|k: int|
            0 <= k < s.word_bitmaps@.len() && #[trigger] sol[i] == (
            #[trigger] s.word_bitmaps@[k]).word@
}

/// Each word after the first begins with the letter the previous one ended
/// on.
pub open spec fn chain_adjacent(sol: Seq<Seq<char>>) -> bool {
    forall|i: int| 0 < i < sol.len() ==> (#[trigger] sol[i])[0] == sol[i - 1].last()
}

/// The chain's words together use every board letter.
pub open spec fn chain_covers(s: Solver, sol: Seq<Seq<char>>) -> bool {
    forall|i: int|
        0 <= i < s.letters@.len() ==> exists|k: int|
            0 <= k < sol.len() && (#[trigger] sol[k]).contains(#[trigger] s.letters@[i])
}

/// The covered bitmask marks exactly the board letters used by the chain so
/// far.
pub open spec fn covered_matches(s: Solver, path: Seq<Seq<char>>, covered: u32) -> bool {
    forall|b: int|
        0 <= b < 32 ==> (#[trigger] bit_set(covered, b) <==> (b < s.letters@.len() && exists|
            k: int,
        |
            0 <= k < path.len() && (#[trigger] path[k]).contains(s.letters@[b])))
}

/// The search's record of the chain's last letter is faithful.
pub open spec fn last_matches(path: Seq<Seq<char>>, last: Option<char>) -> bool {
    match last {
        None => path.len() == 0,
        Some(c) => path.len() >= 1 && path.last().len() >= 1 && path.last().last() == c,
    }
}

impl Solver {
    /// What every emitted chain satisfies: exactly the target length, an
    /// extension of the partial chain, known words only, the adjacency rule,
    /// and full coverage of the board alphabet.
    proof fn lemma_dfs_valid(
        self,
        path: Seq<Seq<char>>,
        covered: u32,
        last: Option<char>,
        target: nat,
    )
        requires
            self.wf(),
            path.len() <= target,
            chain_words_known(self, path),
            chain_adjacent(path),
            covered_matches(self, path, covered),
            last_matches(path, last),
        ensures
            forall|n: int|
                0 <= n < self.dfs(path, covered, last, target).len() ==> {
                    let r = #[trigger] self.dfs(path, covered, last, target)[n];
                    &&& r.len() == target
                    &&& is_prefix(path, r)
                    &&& chain_words_known(self, r)
                    &&& chain_adjacent(r)
                    &&& chain_covers(self, r)
                },
        decreases target - path.len(), self.candidates(last).len() + 1,
    {
        if covered == self.all_letters_mask && path.len() == target {
            assert forall|n: int|
                0 <= n < self.dfs(path, covered, last, target).len() implies {
                let r = #[trigger] self.dfs(path, covered, last, target)[n];
                &&& r.len() == target
                &&& is_prefix(path, r)
                &&& chain_words_known(self, r)
                &&& chain_adjacent(r)
                &&& chain_covers(self, r)
            } by {
                let r = self.dfs(path, covered, last, target)[n];
                assert(r == path);
                lemma_prefix_refl(path);
                assert(chain_covers(self, r)) by {
                    assert forall|i: int| 0 <= i < self.letters@.len() implies exists|k: int|
                        0 <= k < r.len() && (#[trigger] r[k]).contains(
                            #[trigger] self.letters@[i],
                        ) by {
                        lemma_bit_mask_all(self.letters@.len(), i);
                        assert(bit_set(covered, i));
                    }
                }
            }
        } else if path.len() >= target {
            assert(self.dfs(path, covered, last, target) =~= Seq::<Seq<Seq<char>>>::empty());
        } else {
            self.lemma_dfs_list_valid(path, covered, last, target, 0);
            assert(self.dfs(path, covered, last, target) == self.dfs_list(
                path,
                covered,
                last,
                target,
                0,
            ));
        }
    }

    /// The per-candidate step of the validity argument.
    proof fn lemma_dfs_list_valid(
        self,
        path: Seq<Seq<char>>,
        covered: u32,
        last: Option<char>,
        target: nat,
        k: int,
    )
        requires
            self.wf(),
            path.len() < target,
            chain_words_known(self, path),
            chain_adjacent(path),
            covered_matches(self, path, covered),
            last_matches(path, last),
        ensures
            forall|n: int|
                0 <= n < self.dfs_list(path, covered, last, target, k).len() ==> {
                    let r = #[trigger] self.dfs_list(path, covered, last, target, k)[n];
                    &&& r.len() == target
                    &&& is_prefix(path, r)
                    &&& chain_words_known(self, r)
                    &&& chain_adjacent(r)
                    &&& chain_covers(self, r)
                },
        decreases target - path.len(), self.candidates(last).len() - k,
    {
        let cands = self.candidates(last);
        if k < 0 || k >= cands.len() {
        } else {
            let idx = cands[k] as int;
            self.lemma_dfs_list_valid(path, covered, last, target, k + 1);
            if 0 <= idx < self.word_bitmaps@.len() && (covered | self.word_bitmaps@[idx].bitmap)
                != covered {
                let wv = self.word_bitmaps@[idx].word@;
                let path2 = path.push(wv);
                let covered2 = covered | self.word_bitmaps@[idx].bitmap;
                assert(chain_words_known(self, path2)) by {
                    assert forall|i: int| 0 <= i < path2.len() implies exists|k2: int|
                        0 <= k2 < self.word_bitmaps@.len() && #[trigger] path2[i] == (
                        #[trigger] self.word_bitmaps@[k2]).word@ by {
                        if i < path.len() {
                            assert(path2[i] == path[i]);
                            let k2 = choose|k2: int|
                                0 <= k2 < self.word_bitmaps@.len() && #[trigger] path[i] == (
                                #[trigger] self.word_bitmaps@[k2]).word@;
                            assert(path2[i] == self.word_bitmaps@[k2].word@);
                        } else {
                            assert(path2[i] == wv);
                            assert(path2[i] == self.word_bitmaps@[idx].word@);
                        }
                    }
                }
                assert(chain_adjacent(path2)) by {
                    assert forall|i: int| 0 < i < path2.len() implies (#[trigger] path2[i])[0]
                        == path2[i - 1].last() by {
                        if i < path.len() {
                            assert(path2[i] == path[i] && path2[i - 1] == path[i - 1]);
                        } else {
                            assert(path2[i] == wv);
                            match last {
                                None => {
                                    assert(path.len() == 0);
                                    assert(false);
                                },
                                Some(c) => {
                                    assert(self.letters@.contains(c));
                                    let li = letter_index(self.letters@, c);
                                    assert(0 <= li < self.letters@.len() && self.letters@[li]
                                        == c);
                                    assert(cands[k]
                                        == self.words_by_first_letter@[li]@[k]);
                                    assert(self.word_bitmaps@[idx].word@[0]
                                        == self.letters@[li]);
                                    assert(path2[i - 1] == path.last());
                                },
                            }
                        }
                    }
                }
                assert(covered_matches(self, path2, covered2)) by {
                    assert forall|b: int| 0 <= b < 32 implies (#[trigger] bit_set(covered2, b)
                        <==> (b < self.letters@.len() && exists|k2: int|
                        0 <= k2 < path2.len() && (#[trigger] path2[k2]).contains(
                            self.letters@[b],
                        ))) by {
                        lemma_bit_or(covered, self.word_bitmaps@[idx].bitmap, b);
                        assert(valid_mask(self.letters@, wv, self.word_bitmaps@[idx].bitmap));
                        if bit_set(covered2, b) {
                            if bit_set(covered, b) {
                                let k2 = choose|k2: int|
                                    0 <= k2 < path.len() && (#[trigger] path[k2]).contains(
                                        self.letters@[b],
                                    );
                                assert(path2[k2].contains(self.letters@[b]));
                            } else {
                                assert(bit_set(self.word_bitmaps@[idx].bitmap, b));
                                assert(wv.contains(self.letters@[b]));
                                assert(path2[path.len() as int].contains(self.letters@[b]));
                            }
                        }
                        if b < self.letters@.len() && exists|k2: int|
                            0 <= k2 < path2.len() && (#[trigger] path2[k2]).contains(
                                self.letters@[b],
                            ) {
                            let k2 = choose|k2: int|
                                0 <= k2 < path2.len() && (#[trigger] path2[k2]).contains(
                                    self.letters@[b],
                                );
                            if k2 < path.len() {
                                assert(path[k2].contains(self.letters@[b]));
                                assert(bit_set(covered, b));
                            } else {
                                assert(wv.contains(self.letters@[b]));
                                assert(bit_set(self.word_bitmaps@[idx].bitmap, b));
                            }
                        }
                    }
                }
                assert(last_matches(path2, Some(wv.last()))) by {
                    assert(path2.last() == wv);
                    assert(wv.len() >= 1);
                }
                self.lemma_dfs_valid(path2, covered2, Some(wv.last()), target);
                let head = self.dfs(path2, covered2, Some(wv.last()), target);
                let tail = self.dfs_list(path, covered, last, target, k + 1);
                assert forall|n: int|
                    0 <= n < self.dfs_list(path, covered, last, target, k).len() implies {
                    let r = #[trigger] self.dfs_list(path, covered, last, target, k)[n];
                    &&& r.len() == target
                    &&& is_prefix(path, r)
                    &&& chain_words_known(self, r)
                    &&& chain_adjacent(r)
                    &&& chain_covers(self, r)
                } by {
                    let r = self.dfs_list(path, covered, last, target, k)[n];
                    if n < head.len() {
                        assert(r == head[n]);
                        assert(is_prefix(path2, r));
                        assert(is_prefix(path, path2)) by {
                            assert(path2.take(path.len() as int) =~= path);
                        }
                        lemma_prefix_trans(path, path2, r);
                    } else {
                        assert(r == tail[n - head.len()]);
                    }
                }
            } else {
                assert forall|n: int|
                    0 <= n < self.dfs_list(path, covered, last, target, k).len() implies {
                    let r = #[trigger] self.dfs_list(path, covered, last, target, k)[n];
                    &&& r.len() == target
                    &&& is_prefix(path, r)
                    &&& chain_words_known(self, r)
                    &&& chain_adjacent(r)
                    &&& chain_covers(self, r)
                } by {
                    let tail = self.dfs_list(path, covered, last, target, k + 1);
                    let r = self.dfs_list(path, covered, last, target, k)[n];
                    assert(r == tail[n]);
                }
            }
        }
    }

    /// Enumeration entries all come from one fixed-length pass.
    proof fn lemma_enum_upto_member(self, t: int, n: int)
        requires
            0 <= n < self.enum_upto(t).len(),
        ensures
            exists|t2: int, n2: int|
                1 <= t2 <= t && 0 <= n2 < self.enum_target(t2 as nat).len() && self.enum_upto(t)[n]
                    == #[trigger] self.enum_target(t2 as nat)[n2],
        decreases t,
    {
        if t <= 0 {
        } else {
            let a = self.enum_upto(t - 1);
            let b = self.enum_target(t as nat);
            if n < a.len() {
                self.lemma_enum_upto_member(t - 1, n);
                let (t2, n2): (int, int) = choose|t2: int, n2: int|
                    1 <= t2 <= t - 1 && 0 <= n2 < self.enum_target(t2 as nat).len()
                        && self.enum_upto(t - 1)[n] == #[trigger] self.enum_target(t2 as nat)[n2];
                assert(self.enum_upto(t)[n] == self.enum_target(t2 as nat)[n2]);
            } else {
                assert(self.enum_upto(t)[n] == self.enum_target(t as nat)[n - a.len()]);
            }
        }
    }
}

/// Every chain the search returns obeys the rules: one to four playable
/// words, each beginning with the letter the previous one ended on, and all
/// board letters covered between them.
pub proof fn lemma_solutions_valid(s: Solver, n: int)
    requires
        s.wf(),
        0 <= n < s.solve_result().len(),
    ensures
        ({
            let r = s.solve_result()[n];
            &&& 1 <= r.len() <= 4
            &&& chain_words_known(s, r)
            &&& chain_adjacent(r)
            &&& chain_covers(s, r)
        }),
{
    let full = s.full_enumeration();
    let cap = s.max_solutions as int;
    assert(s.solve_result()[n] == full[n]) by {
        if cap <= 0 {
        } else if full.len() <= cap {
        } else {
            assert(capped(full, cap) == full.take(cap));
        }
    }
    s.lemma_enum_upto_member(4, n);
    let (t2, n2): (int, int) = choose|t2: int, n2: int|
        1 <= t2 <= 4 && 0 <= n2 < s.enum_target(t2 as nat).len() && s.enum_upto(4)[n]
            == #[trigger] s.enum_target(t2 as nat)[n2];
    assert(chain_words_known(s, Seq::<Seq<char>>::empty()));
    assert(chain_adjacent(Seq::<Seq<char>>::empty()));
    assert(covered_matches(s, Seq::<Seq<char>>::empty(), 0u32)) by {
        assert forall|b: int| 0 <= b < 32 implies !bit_set(0u32, b) by {
            lemma_bit_zero(b);
        }
    }
    assert(last_matches(Seq::<Seq<char>>::empty(), None));
    s.lemma_dfs_valid(Seq::empty(), 0u32, None, t2 as nat);
}

/// A board letter no playable word carries can never be covered, so the
/// search returns nothing. In particular an empty playable-word list, as an
/// empty dictionary leaves behind, yields an empty result: an expected
/// outcome, not an error.
pub proof fn lemma_uncoverable_is_empty(s: Solver, i: int)
    requires
        s.wf(),
        0 <= i < s.letters@.len(),
        forall|k: int|
            0 <= k < s.word_bitmaps@.len() ==> !(#[trigger] s.word_bitmaps@[k]).word@.contains(
                s.letters@[i],
            ),
    ensures
        s.solve_result().len() == 0,
{
    if s.solve_result().len() > 0 {
        lemma_solutions_valid(s, 0);
        let r = s.solve_result()[0];
        assert(chain_covers(s, r));
        let k = choose|k: int| 0 <= k < r.len() && (#[trigger] r[k]).contains(s.letters@[i]);
        assert(chain_words_known(s, r));
        let k2 = choose|k2: int|
            0 <= k2 < s.word_bitmaps@.len() && r[k] == (#[trigger] s.word_bitmaps@[k2]).word@;
        assert(s.word_bitmaps@[k2].word@.contains(s.letters@[i]));
    }
}

/// Cancelling mid-search yields, in discovery order, a prefix of what the
/// uncancelled search returns: the contracts of `solve_cancellable` and
/// `solve` meet in the capped enumeration.
pub proof fn lemma_cancelled_prefix_of_uncancelled(
    s: Solver,
    uncancelled: Seq<Seq<Seq<char>>>,
    cancelled: Seq<Seq<Seq<char>>>,
)
    requires
        uncancelled == s.solve_result(),
        is_prefix(cancelled, s.solve_result()),
    ensures
        is_prefix(cancelled, uncancelled),
{
}

} // verus!
