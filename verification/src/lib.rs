//! Solver library for the "Letter Boxed" word puzzle.
//!
//! A board has four sides, each a short run of distinct letters. A word may
//! only step between letters that sit on different sides, and in a chain of
//! words each word must begin with the letter the previous word ended on. A
//! solution is a chain whose words together use every letter of the board.
//!
//! The crate is organised leaves first: [`board`] validates the layout and
//! derives the legal letter-to-letter transitions ("digraphs"), [`dictionary`]
//! holds candidate words and filters them down to the ones playable on a
//! board, and [`solver`] searches for covering chains with a solution cap and
//! cooperative cancellation.

use vstd::prelude::*;

pub mod board;
pub mod cover;
pub mod dictionary;
pub mod digraph;
pub mod scan;
pub mod session;
pub mod solver;
pub mod wordlist;

verus! {

/// Relies on `String::push` of std, which vstd leaves unspecified: it
/// appends exactly the given character to the end of the string.
pub assume_specification[ String::push ](s: &mut String, ch: char)
    ensures
        final(s)@ == old(s)@.push(ch),
;

/// True when `c` is one of the 26 lower-case ASCII letters.
pub open spec fn is_lower_alpha(c: char) -> bool {
    'a' <= c && c <= 'z'
}

} // verus!
