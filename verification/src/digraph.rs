//! Ordered letter pairs ("digraphs").
//!
//! A digraph records one step a word makes from a letter to the next. On a
//! board, a digraph is legal exactly when its two letters come from two
//! different sides; a word is playable when every consecutive pair of its
//! letters is a legal digraph.

use vstd::prelude::*;

verus! {

/// An ordered pair of letters: one step from `first` to `second`.
#[derive(Clone, Copy, PartialEq, Eq, Structural, Debug, Hash)]
pub struct Digraph {
    pub first: char,
    pub second: char,
}

impl Digraph {
    /// Pairs two letters in order.
    pub fn new(first: char, second: char) -> (d: Digraph)
        ensures
            d.first == first,
            d.second == second,
    {
        Digraph { first, second }
    }
}

/// The number of consecutive letter pairs in a word: one fewer than its
/// letters, or none for the empty word.
pub open spec fn digraph_count(w: Seq<char>) -> nat {
    if w.len() == 0 {
        0
    } else {
        (w.len() - 1) as nat
    }
}

/// True when `ds` is exactly the sequence of consecutive letter pairs of `w`,
/// in order of appearance (duplicates kept).
pub open spec fn are_word_digraphs(ds: Seq<Digraph>, w: Seq<char>) -> bool {
    &&& ds.len() == digraph_count(w)
    &&& forall|i: int|
        0 <= i < ds.len() ==> ds[i] == (Digraph { first: w[i], second: w[i + 1] })
}

/// Collects the consecutive letter pairs of a word, in order.
pub fn digraphs_of(word: &str) -> (r: Vec<Digraph>)
    ensures
        are_word_digraphs(r@, word@),
{
    let n = word.unicode_len();
    let mut r: Vec<Digraph> = Vec::new();
    if n == 0 {
        return r;
    }
    let mut i: usize = 0;
    while i + 1 < n
        invariant
            n == word@.len(),
            1 <= n,
            i + 1 <= n,
            r@.len() == i,
            forall|j: int|
                0 <= j < i ==> r@[j] == (Digraph { first: word@[j], second: word@[j + 1] }),
        decreases n - i,
    {
        let a = word.get_char(i);
        let b = word.get_char(i + 1);
        r.push(Digraph { first: a, second: b });
        i = i + 1;
    }
    r
}

/// Linear search for a digraph in a vector of digraphs.
pub fn contains_digraph(v: &Vec<Digraph>, d: Digraph) -> (r: bool)
    ensures
        r == v@.contains(d),
{
    let mut k: usize = 0;
    while k < v.len()
        invariant
            k <= v@.len(),
            forall|m: int| 0 <= m < k ==> v@[m] != d,
        decreases v@.len() - k,
    {
        if v[k] == d {
            return true;
        }
        k = k + 1;
    }
    false
}

/// Copies a vector of digraphs element by element.
pub fn copy_digraphs(v: &Vec<Digraph>) -> (r: Vec<Digraph>)
    ensures
        r@ == v@,
{
    let mut r: Vec<Digraph> = Vec::new();
    let mut k: usize = 0;
    while k < v.len()
        invariant
            k <= v@.len(),
            r@ == v@.take(k as int),
        decreases v@.len() - k,
    {
        r.push(v[k]);
        proof {
            assert(r@ =~= v@.take(k + 1));
        }
        k = k + 1;
    }
    proof {
        assert(v@.take(v@.len() as int) =~= v@);
    }
    r
}

} // verus!
