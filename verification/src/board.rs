//! The puzzle board: four sides of distinct letters, and the legal digraphs
//! they induce.
//!
//! A board is built from exactly four nonempty sides of equal length, all
//! letters lower-case ASCII and no letter repeated anywhere. Construction
//! derives the full set of legal digraphs once: every ordered pair of letters
//! drawn from two different sides. A word is playable on the board when each
//! of its consecutive letter pairs is such a digraph.

use vstd::prelude::*;

use crate::dictionary::{Dictionary, Word};
use crate::digraph::{contains_digraph, Digraph};
use crate::is_lower_alpha;

verus! {

broadcast use vstd::seq_lib::lemma_seq_contains_after_push;

/// Why a proposed board (or board specification) was rejected.
///
/// The first three variants report structural faults and the next two faults
/// of content; validation checks structure before content and reports the
/// first fault found, so each rejected input maps to exactly one variant.
/// The last variant belongs to the comma-separated specification format.
#[derive(Debug, Clone, Copy, PartialEq, Eq, Structural)]
pub enum ValidationError {
    /// The board did not have exactly 4 sides; `found` is how many it had.
    WrongSideCount { found: usize },
    /// Side `side` (the first such, in order) has no letters.
    EmptySide { side: usize },
    /// Side `side` (the first such) has `found` letters where the first side
    /// has `expected`.
    UnevenSides { side: usize, found: usize, expected: usize },
    /// The letter at `position` of side `side` (the first such, scanning
    /// sides in order) is not lower-case ASCII.
    InvalidCharacter { side: usize, position: usize, letter: char },
    /// `letter` appears both on `first_side` and, later in the scan, on
    /// `second_side` (possibly the same side).
    DuplicateLetter { letter: char, first_side: usize, second_side: usize },
    /// The character at `position` of a comma-separated board specification
    /// is neither a letter nor a comma.
    SpecCharacter { position: usize, letter: char },
}

impl ValidationError {
    /// A human-readable description of the fault, fixed per variant.
    pub fn message(&self) -> (r: String)
        ensures
            r@ == match self {
                ValidationError::WrongSideCount { .. } => "Game must contain exactly 4 sides"@,
                ValidationError::EmptySide { .. } => "Empty sides are not allowed"@,
                ValidationError::UnevenSides { .. } => "All sides must have the same length"@,
                ValidationError::InvalidCharacter { .. } => "Invalid character: only lowercase ASCII letters are allowed"@,
                ValidationError::DuplicateLetter { first_side, second_side, .. } => if first_side
                    == second_side {
                    "Duplicate letter found twice on one side"@
                } else {
                    "Duplicate letter found on two sides"@
                },
                ValidationError::SpecCharacter { .. } => "Invalid character in board specification: only letters and commas are allowed"@,
            },
    {
        let mut s = String::new();
        match self {
            ValidationError::WrongSideCount { .. } => {
                s.append("Game must contain exactly 4 sides");
            },
            ValidationError::EmptySide { .. } => {
                s.append("Empty sides are not allowed");
            },
            ValidationError::UnevenSides { .. } => {
                s.append("All sides must have the same length");
            },
            ValidationError::InvalidCharacter { .. } => {
                s.append("Invalid character: only lowercase ASCII letters are allowed");
            },
            ValidationError::DuplicateLetter { first_side, second_side, .. } => {
                s.append("Duplicate letter found");
                if first_side == second_side {
                    s.append(" twice on one side");
                    proof {
                        reveal_strlit("Duplicate letter found");
                        reveal_strlit(" twice on one side");
                        reveal_strlit("Duplicate letter found twice on one side");
                        assert(s@ =~= "Duplicate letter found twice on one side"@);
                    }
                } else {
                    s.append(" on two sides");
                    proof {
                        reveal_strlit("Duplicate letter found");
                        reveal_strlit(" on two sides");
                        reveal_strlit("Duplicate letter found on two sides");
                        assert(s@ =~= "Duplicate letter found on two sides"@);
                    }
                }
            },
            ValidationError::SpecCharacter { .. } => {
                s.append("Invalid character in board specification: only letters and commas are allowed");
            },
        }
        s
    }
}

/// Structural soundness: exactly four sides, none empty, all the same length.
pub open spec fn sides_structure_ok(sides: Seq<Seq<char>>) -> bool {
    &&& sides.len() == 4
    &&& sides[0].len() >= 1
    &&& forall|i: int| 0 <= i < 4 ==> (#[trigger] sides[i]).len() == sides[0].len()
}

/// Content soundness: every letter lower-case ASCII and no letter repeated,
/// whether on one side or across sides.
pub open spec fn sides_content_ok(sides: Seq<Seq<char>>) -> bool {
    &&& forall|i: int, j: int|
        0 <= i < sides.len() && 0 <= j < sides[i].len() ==> is_lower_alpha(
            #[trigger] sides[i][j],
        )
    &&& forall|i1: int, j1: int, i2: int, j2: int|
        0 <= i1 < sides.len() && 0 <= j1 < sides[i1].len() && 0 <= i2 < sides.len() && 0 <= j2
            < sides[i2].len() && #[trigger] sides[i1][j1] == #[trigger] sides[i2][j2] ==> i1 == i2
            && j1 == j2
}

/// A fully valid board layout.
pub open spec fn sides_wf(sides: Seq<Seq<char>>) -> bool {
    sides_structure_ok(sides) && sides_content_ok(sides)
}

/// The digraph `d` is legal on `sides`: its two letters sit on two different
/// sides.
pub open spec fn legal_digraph(sides: Seq<Seq<char>>, d: Digraph) -> bool {
    exists|i: int, j: int|
        0 <= i < sides.len() && 0 <= j < sides.len() && i != j && (#[trigger] sides[i]).contains(
            d.first,
        ) && (#[trigger] sides[j]).contains(d.second)
}

/// Scan-order precedence on letter positions: `(i1, j1)` comes strictly
/// before `(i2, j2)` when sides are scanned in order, letters left to right.
pub open spec fn scan_before(i1: int, j1: int, i2: int, j2: int) -> bool {
    i1 < i2 || (i1 == i2 && j1 < j2)
}

/// Every letter strictly before `(i, j)` in scan order is lower-case ASCII.
pub open spec fn alpha_before(sides: Seq<Seq<char>>, i: int, j: int) -> bool {
    forall|i2: int, j2: int|
        0 <= i2 < sides.len() && 0 <= j2 < sides[i2].len() && scan_before(i2, j2, i, j)
            ==> is_lower_alpha(#[trigger] sides[i2][j2])
}

/// The letter at `(i, j)` repeats a letter that appeared strictly earlier in
/// scan order.
pub open spec fn dup_at(sides: Seq<Seq<char>>, i: int, j: int) -> bool {
    exists|i2: int, j2: int|
        0 <= i2 < sides.len() && 0 <= j2 < sides[i2].len() && scan_before(i2, j2, i, j)
            && #[trigger] sides[i2][j2] == sides[i][j]
}

/// No position strictly before `(i, j)` in scan order repeats an earlier
/// letter.
pub open spec fn nodup_before(sides: Seq<Seq<char>>, i: int, j: int) -> bool {
    forall|i2: int, j2: int|
        0 <= i2 < sides.len() && 0 <= j2 < sides[i2].len() && #[trigger] scan_before(i2, j2, i, j)
            ==> !dup_at(sides, i2, j2)
}

/// `letter` occurs at `(s1, j1)` and again at the strictly later scan
/// position `(s2, j2)`, this being the first repeat the scan meets and all
/// letters up to it lower-case ASCII.
pub open spec fn duplicate_witness(
    sides: Seq<Seq<char>>,
    letter: char,
    s1: int,
    j1: int,
    s2: int,
    j2: int,
) -> bool {
    &&& 0 <= s1 < sides.len()
    &&& 0 <= j1 < sides[s1].len()
    &&& 0 <= s2 < sides.len()
    &&& 0 <= j2 < sides[s2].len()
    &&& sides[s1][j1] == letter
    &&& sides[s2][j2] == letter
    &&& scan_before(s1, j1, s2, j2)
    &&& alpha_before(sides, s2, j2)
    &&& is_lower_alpha(letter)
    &&& nodup_before(sides, s2, j2)
}

/// `letter` repeats, first on `s1` and then on `s2`, at the first repeat the
/// scan meets.
pub open spec fn first_duplicate(sides: Seq<Seq<char>>, letter: char, s1: int, s2: int) -> bool {
    exists|j1: int, j2: int| #[trigger] duplicate_witness(sides, letter, s1, j1, s2, j2)
}

/// Iteration order of the digraph construction: letters of side `i1` paired
/// against the letters of every other side, sides and letters in order.
/// `(i1, p1, j1, q1)` comes strictly before `(i2, p2, j2, q2)`.
pub open spec fn iter_before(
    i1: int,
    p1: int,
    j1: int,
    q1: int,
    i2: int,
    p2: int,
    j2: int,
    q2: int,
) -> bool {
    ||| i1 < i2
    ||| (i1 == i2 && p1 < p2)
    ||| (i1 == i2 && p1 == p2 && j1 < j2)
    ||| (i1 == i2 && p1 == p2 && j1 == j2 && q1 < q2)
}

/// `d` is the pair of the letter at `(a, b)` and the letter at `(e, f)`,
/// with the two positions on different sides.
pub open spec fn pair_at(sides: Seq<Seq<char>>, d: Digraph, a: int, b: int, e: int, f: int) -> bool {
    &&& 0 <= a < sides.len()
    &&& 0 <= b < sides[a].len()
    &&& 0 <= e < sides.len()
    &&& 0 <= f < sides[e].len()
    &&& e != a
    &&& d.first == sides[a][b]
    &&& d.second == sides[e][f]
}

/// `d` is produced by an iteration of the digraph construction strictly
/// before step `(i, p, j, q)`.
pub open spec fn produced_before(
    sides: Seq<Seq<char>>,
    d: Digraph,
    i: int,
    p: int,
    j: int,
    q: int,
) -> bool {
    exists|a: int, b: int, e: int, f: int|
        #[trigger] pair_at(sides, d, a, b, e, f) && iter_before(a, b, e, f, i, p, j, q)
}

/// The exact condition under which structural validation reports `e`: the
/// first structural fault of the scan, with its details.
pub open spec fn structure_error_spec(sides: Seq<Seq<char>>, e: ValidationError) -> bool {
    match e {
        ValidationError::WrongSideCount { found } => {
            &&& sides.len() != 4
            &&& found == sides.len()
        },
        ValidationError::EmptySide { side } => {
            &&& sides.len() == 4
            &&& 0 <= side < 4
            &&& sides[side as int].len() == 0
            &&& forall|k: int| 0 <= k < side ==> (#[trigger] sides[k]).len() > 0
        },
        ValidationError::UnevenSides { side, found, expected } => {
            &&& sides.len() == 4
            &&& forall|k: int| 0 <= k < 4 ==> (#[trigger] sides[k]).len() > 0
            &&& 0 <= side < 4
            &&& expected == sides[0].len()
            &&& found == sides[side as int].len()
            &&& found != expected
            &&& forall|k: int| 0 <= k < side ==> (#[trigger] sides[k]).len() == sides[0].len()
        },
        _ => false,
    }
}

/// The exact condition under which content validation reports `e`: the first
/// content fault of the scan, with its details.
pub open spec fn content_error_spec(sides: Seq<Seq<char>>, e: ValidationError) -> bool {
    match e {
        ValidationError::InvalidCharacter { side, position, letter } => {
            &&& 0 <= side < 4
            &&& 0 <= position < sides[side as int].len()
            &&& letter == sides[side as int][position as int]
            &&& !is_lower_alpha(letter)
            &&& alpha_before(sides, side as int, position as int)
            &&& nodup_before(sides, side as int, position as int)
        },
        ValidationError::DuplicateLetter { letter, first_side, second_side } => {
            &&& 0 <= first_side < 4
            &&& 0 <= second_side < 4
            &&& first_duplicate(sides, letter, first_side as int, second_side as int)
        },
        _ => false,
    }
}

/// The total number of letters on a four-sided board.
pub open spec fn board_letter_count(sides: Seq<Seq<char>>) -> int {
    sides[0].len() + sides[1].len() + sides[2].len() + sides[3].len() as int
}

/// How many of the sides strictly before `j` are not side `i`.
pub open spec fn other_sides_before(i: int, j: int) -> int {
    if i < j {
        j - 1
    } else {
        j
    }
}

/// The views of a vector of sides, one letter sequence per side.
pub open spec fn side_views(sides: Seq<String>) -> Seq<Seq<char>> {
    crate::scan::string_views(sides)
}

/// A validated board: four sides and the digraphs that are legal on them.
#[derive(Debug, Clone)]
pub struct Board {
    pub sides: Vec<String>,
    pub digraphs: Vec<Digraph>,
}

impl Board {
    /// The board's sides as letter sequences.
    pub open spec fn sides_view(&self) -> Seq<Seq<char>> {
        side_views(self.sides@)
    }

    /// Invariant of every constructed board: the layout is valid and
    /// `digraphs` lists each legal digraph exactly once, N * (N - L) of them
    /// for N letters in all and L per side.
    pub open spec fn wf(&self) -> bool {
        &&& sides_wf(self.sides_view())
        &&& self.digraphs@.no_duplicates()
        &&& forall|d: Digraph|
            #[trigger] self.digraphs@.contains(d) <==> legal_digraph(self.sides_view(), d)
        &&& self.digraphs@.len() == board_letter_count(self.sides_view()) * (board_letter_count(
            self.sides_view(),
        ) - self.sides_view()[0].len())
    }

    /// Builds a board from four sides, validating structure then content.
    /// A valid layout yields the board with its full legal-digraph set; an
    /// invalid one is rejected with the first fault found, never accepted.
    pub fn from_sides(sides: Vec<String>) -> (r: Result<Board, ValidationError>)
        ensures
            r is Ok <==> sides_wf(side_views(sides@)),
            match r {
                Ok(b) => {
                    &&& b.sides@ == sides@
                    &&& b.wf()
                },
                Err(e) => {
                    ||| structure_error_spec(side_views(sides@), e)
                    ||| (sides_structure_ok(side_views(sides@)) && content_error_spec(
                        side_views(sides@),
                        e,
                    ))
                },
            },
    {
        match Self::validate_sides_structure(&sides) {
            Err(e) => {
                return Err(e);
            },
            Ok(()) => {},
        }
        match Self::validate_sides_content(&sides) {
            Err(e) => {
                return Err(e);
            },
            Ok(()) => {},
        }
        let digraphs = Self::playable_digraphs(&sides);
        Ok(Board { sides, digraphs })
    }

    /// Checks the board's shape: exactly 4 sides, none empty, equal lengths.
    /// Reports the first fault: side count, then emptiness, then length.
    pub fn validate_sides_structure(sides: &Vec<String>) -> (r: Result<(), ValidationError>)
        ensures
            r is Ok <==> sides_structure_ok(side_views(sides@)),
            r matches Err(e) ==> structure_error_spec(side_views(sides@), e),
    {
        if sides.len() != 4 {
            return Err(ValidationError::WrongSideCount { found: sides.len() });
        }
        let mut i: usize = 0;
        while i < 4
            invariant
                sides@.len() == 4,
                i <= 4,
                forall|k: int| 0 <= k < i ==> (#[trigger] sides@[k])@.len() > 0,
            decreases 4 - i,
        {
            if sides[i].as_str().unicode_len() == 0 {
                proof {
                    assert(side_views(sides@)[i as int].len() == 0);
                    assert(!sides_structure_ok(side_views(sides@))) by {
                        if sides_structure_ok(side_views(sides@)) {
                            assert(side_views(sides@)[i as int].len() == side_views(
                                sides@,
                            )[0].len());
                        }
                    }
                }
                return Err(ValidationError::EmptySide { side: i });
            }
            i = i + 1;
        }
        let expected = sides[0].as_str().unicode_len();
        let mut i: usize = 0;
        while i < 4
            invariant
                sides@.len() == 4,
                i <= 4,
                expected == sides@[0]@.len(),
                forall|k: int| 0 <= k < 4 ==> (#[trigger] sides@[k])@.len() > 0,
                forall|k: int| 0 <= k < i ==> (#[trigger] sides@[k])@.len() == sides@[0]@.len(),
            decreases 4 - i,
        {
            let found = sides[i].as_str().unicode_len();
            if found != expected {
                proof {
                    assert(!sides_structure_ok(side_views(sides@))) by {
                        if sides_structure_ok(side_views(sides@)) {
                            assert(side_views(sides@)[i as int].len() == side_views(
                                sides@,
                            )[0].len());
                        }
                    }
                }
                return Err(ValidationError::UnevenSides { side: i, found, expected });
            }
            i = i + 1;
        }
        proof {
            assert(sides_structure_ok(side_views(sides@)));
        }
        Ok(())
    }

    /// Checks the board's letters: all lower-case ASCII, none repeated.
    /// Scans sides in order, letters left to right, and reports the first
    /// fault; at one position a bad character is reported before a repeat.
    pub fn validate_sides_content(sides: &Vec<String>) -> (r: Result<(), ValidationError>)
        requires
            sides_structure_ok(side_views(sides@)),
        ensures
            r is Ok <==> sides_content_ok(side_views(sides@)),
            r matches Err(e) ==> content_error_spec(side_views(sides@), e),
    {
        let ghost sv = side_views(sides@);
        let side_len = sides[0].as_str().unicode_len();
        let mut i: usize = 0;
        while i < 4
            invariant
                sides_structure_ok(sv),
                sv == side_views(sides@),
                sides@.len() == 4,
                side_len == sv[0].len(),
                i <= 4,
                alpha_before(sv, i as int, 0),
                nodup_before(sv, i as int, 0),
            decreases 4 - i,
        {
            proof {
                assert(sv[i as int] == sides@[i as int]@);
                assert(sv[i as int].len() == side_len);
            }
            let mut j: usize = 0;
            while j < side_len
                invariant
                    sides_structure_ok(sv),
                    sv == side_views(sides@),
                    sides@.len() == 4,
                    side_len == sv[0].len(),
                    i < 4,
                    j <= side_len,
                    sv[i as int].len() == side_len,
                    alpha_before(sv, i as int, j as int),
                    nodup_before(sv, i as int, j as int),
                decreases side_len - j,
            {
                let c = sides[i].as_str().get_char(j);
                proof {
                    assert(c == sv[i as int][j as int]);
                }
                if !('a' <= c && c <= 'z') {
                    proof {
                        assert(!sides_content_ok(sv));
                    }
                    return Err(ValidationError::InvalidCharacter { side: i, position: j, letter: c });
                }
                // Look for an earlier occurrence of the same letter.
                let mut i2: usize = 0;
                while i2 <= i
                    invariant
                        sides_structure_ok(sv),
                        sv == side_views(sides@),
                        sides@.len() == 4,
                        side_len == sv[0].len(),
                        i < 4,
                        j < side_len,
                        i2 <= i + 1,
                        sv[i as int].len() == side_len,
                        c == sv[i as int][j as int],
                        is_lower_alpha(c),
                        alpha_before(sv, i as int, j as int),
                        nodup_before(sv, i as int, j as int),
                        forall|a: int, b: int|
                            0 <= a < i2 && 0 <= b < sv[a].len() && scan_before(
                                a,
                                b,
                                i as int,
                                j as int,
                            ) ==> #[trigger] sv[a][b] != c,
                    decreases i + 1 - i2,
                {
                    let limit = if i2 == i {
                        j
                    } else {
                        side_len
                    };
                    proof {
                        assert(sv[i2 as int] == sides@[i2 as int]@);
                        assert(sv[i2 as int].len() == side_len);
                    }
                    let mut j2: usize = 0;
                    while j2 < limit
                        invariant
                            sides_structure_ok(sv),
                            sv == side_views(sides@),
                            sides@.len() == 4,
                            side_len == sv[0].len(),
                            i < 4,
                            j < side_len,
                            i2 <= i,
                            j2 <= limit,
                            limit == if i2 == i { j as int } else { side_len as int },
                            sv[i as int].len() == side_len,
                            sv[i2 as int].len() == side_len,
                            c == sv[i as int][j as int],
                            is_lower_alpha(c),
                            alpha_before(sv, i as int, j as int),
                            nodup_before(sv, i as int, j as int),
                            forall|a: int, b: int|
                                0 <= a < i2 && 0 <= b < sv[a].len() && scan_before(
                                    a,
                                    b,
                                    i as int,
                                    j as int,
                                ) ==> #[trigger] sv[a][b] != c,
                            forall|b: int|
                                0 <= b < j2 ==> #[trigger] sv[i2 as int][b] != c,
                        decreases limit - j2,
                    {
                        let c2 = sides[i2].as_str().get_char(j2);
                        proof {
                            assert(c2 == sv[i2 as int][j2 as int]);
                        }
                        if c2 == c {
                            proof {
                                assert(scan_before(i2 as int, j2 as int, i as int, j as int));
                                assert(!sides_content_ok(sv)) by {
                                    if sides_content_ok(sv) {
                                        assert(sv[i2 as int][j2 as int] == sv[i as int][j as int]);
                                    }
                                }
                                assert(duplicate_witness(
                                    side_views(sides@),
                                    c,
                                    i2 as int,
                                    j2 as int,
                                    i as int,
                                    j as int,
                                ));
                            }
                            return Err(ValidationError::DuplicateLetter {
                                letter: c,
                                first_side: i2,
                                second_side: i,
                            });
                        }
                        j2 = j2 + 1;
                    }
                    i2 = i2 + 1;
                }
                proof {
                    assert(!dup_at(sv, i as int, j as int)) by {
                        if dup_at(sv, i as int, j as int) {
                            let (a, b): (int, int) = choose|a: int, b: int|
                                0 <= a < sv.len() && 0 <= b < sv[a].len() && scan_before(
                                    a,
                                    b,
                                    i as int,
                                    j as int,
                                ) && #[trigger] sv[a][b] == sv[i as int][j as int];
                            assert(sv[a][b] != c);
                        }
                    }
                    assert(alpha_before(sv, i as int, (j + 1) as int));
                    assert(nodup_before(sv, i as int, (j + 1) as int)) by {
                        assert forall|a: int, b: int|
                            0 <= a < sv.len() && 0 <= b < sv[a].len() && #[trigger] scan_before(
                                a,
                                b,
                                i as int,
                                j + 1,
                            ) implies !dup_at(sv, a, b) by {
                            if scan_before(a, b, i as int, j as int) {
                            } else {
                                assert(a == i as int && b == j as int);
                            }
                        }
                    }
                }
                j = j + 1;
            }
            proof {
                assert(alpha_before(sv, (i + 1) as int, 0)) by {
                    assert forall|a: int, b: int|
                        0 <= a < sv.len() && 0 <= b < sv[a].len() && scan_before(a, b, i + 1, 0)
                            implies is_lower_alpha(#[trigger] sv[a][b]) by {
                        assert(sv[a].len() == side_len);
                        if a == i as int {
                            assert(scan_before(a, b, i as int, side_len as int));
                        }
                    }
                }
                assert(nodup_before(sv, (i + 1) as int, 0)) by {
                    assert forall|a: int, b: int|
                        0 <= a < sv.len() && 0 <= b < sv[a].len() && #[trigger] scan_before(
                            a,
                            b,
                            i + 1,
                            0,
                        ) implies !dup_at(sv, a, b) by {
                        assert(sv[a].len() == side_len);
                        assert(scan_before(a, b, i as int, side_len as int));
                    }
                }
            }
            i = i + 1;
        }
        proof {
            assert(sides_content_ok(sv)) by {
                assert forall|a: int, b: int|
                    0 <= a < sv.len() && 0 <= b < sv[a].len() implies is_lower_alpha(
                    #[trigger] sv[a][b],
                ) by {
                    assert(scan_before(a, b, 4, 0));
                }
                assert forall|i1: int, j1: int, i2: int, j2: int|
                    0 <= i1 < sv.len() && 0 <= j1 < sv[i1].len() && 0 <= i2 < sv.len() && 0 <= j2
                        < sv[i2].len() && #[trigger] sv[i1][j1] == #[trigger] sv[i2][j2] implies i1
                    == i2 && j1 == j2 by {
                    if scan_before(i1, j1, i2, j2) {
                        assert(scan_before(i2, j2, 4, 0));
                        assert(dup_at(sv, i2, j2));
                    } else if scan_before(i2, j2, i1, j1) {
                        assert(scan_before(i1, j1, 4, 0));
                        assert(dup_at(sv, i1, j1));
                    }
                }
            }
        }
        Ok(())
    }

    /// Derives every legal digraph of a valid layout: each ordered pair of a
    /// letter and a letter of a different side, each exactly once. A board of
    /// N letters with L letters per side has N * (N - L) of them.
    pub fn playable_digraphs(sides: &Vec<String>) -> (r: Vec<Digraph>)
        requires
            sides_wf(side_views(sides@)),
        ensures
            r@.no_duplicates(),
            forall|d: Digraph|
                #[trigger] r@.contains(d) <==> legal_digraph(side_views(sides@), d),
            r@.len() == board_letter_count(side_views(sides@)) * (board_letter_count(
                side_views(sides@),
            ) - side_views(sides@)[0].len()),
    {
        let ghost sv = side_views(sides@);
        let l = sides[0].as_str().unicode_len();
        let mut r: Vec<Digraph> = Vec::new();
        proof {
            assert(forall|k: int| 0 <= k < 4 ==> (#[trigger] sv[k]).len() == l);
            assert(forall|d: Digraph| r@.contains(d) <==> produced_before(sv, d, 0, 0, 0, 0))
                by {
                assert forall|d: Digraph| !produced_before(sv, d, 0, 0, 0, 0) by {
                    if produced_before(sv, d, 0, 0, 0, 0) {
                        let (a, b, e, f): (int, int, int, int) = choose|a: int, b: int, e: int, f: int|
                            #[trigger] pair_at(sv, d, a, b, e, f) && iter_before(a, b, e, f, 0, 0, 0, 0);
                    }
                }
            }
        }
        let mut i: usize = 0;
        while i < 4
            invariant
                sides_wf(sv),
                sv == side_views(sides@),
                forall|k: int| 0 <= k < 4 ==> #[trigger] sv[k] == sides@[k]@,
                sides@.len() == 4,
                l == sv[0].len(),
                1 <= l,
                forall|k: int| 0 <= k < 4 ==> (#[trigger] sv[k]).len() == l,
                i <= 4,
                r@.no_duplicates(),
                forall|d: Digraph|
                    #[trigger] r@.contains(d) <==> produced_before(sv, d, i as int, 0, 0, 0),
                r@.len() == i * (3 * l * l),
            decreases 4 - i,
        {
            let mut p: usize = 0;
            while p < l
                invariant
                    sides_wf(sv),
                    sv == side_views(sides@),
                    forall|k: int| 0 <= k < 4 ==> #[trigger] sv[k] == sides@[k]@,
                    sides@.len() == 4,
                    l == sv[0].len(),
                    1 <= l,
                    forall|k: int| 0 <= k < 4 ==> (#[trigger] sv[k]).len() == l,
                    i < 4,
                    p <= l,
                    r@.no_duplicates(),
                    forall|d: Digraph|
                        #[trigger] r@.contains(d) <==> produced_before(
                            sv,
                            d,
                            i as int,
                            p as int,
                            0,
                            0,
                        ),
                    r@.len() == i * (3 * l * l) + p * (3 * l),
                decreases l - p,
            {
                proof {
                    assert(sv[i as int] == sides@[i as int]@);
                }
                let c1 = sides[i].as_str().get_char(p);
                proof {
                    assert(other_sides_before(i as int, 0) == 0);
                    assert(other_sides_before(i as int, 0) * l == 0) by (nonlinear_arith);
                }
                let mut j: usize = 0;
                while j < 4
                    invariant
                        sides_wf(sv),
                        sv == side_views(sides@),
                        forall|k: int| 0 <= k < 4 ==> #[trigger] sv[k] == sides@[k]@,
                        sides@.len() == 4,
                        l == sv[0].len(),
                        1 <= l,
                        forall|k: int| 0 <= k < 4 ==> (#[trigger] sv[k]).len() == l,
                        i < 4,
                        p < l,
                        j <= 4,
                        c1 == sv[i as int][p as int],
                        r@.no_duplicates(),
                        forall|d: Digraph|
                            #[trigger] r@.contains(d) <==> produced_before(
                                sv,
                                d,
                                i as int,
                                p as int,
                                j as int,
                                0,
                            ),
                        r@.len() == i * (3 * l * l) + p * (3 * l) + other_sides_before(
                            i as int,
                            j as int,
                        ) * l,
                    decreases 4 - j,
                {
                    if j != i {
                        proof {
                            assert(sv[j as int] == sides@[j as int]@);
                        }
                        let mut q: usize = 0;
                        while q < l
                            invariant
                                sides_wf(sv),
                                sv == side_views(sides@),
                                forall|k: int| 0 <= k < 4 ==> #[trigger] sv[k] == sides@[k]@,
                                sides@.len() == 4,
                                l == sv[0].len(),
                                1 <= l,
                                forall|k: int| 0 <= k < 4 ==> (#[trigger] sv[k]).len() == l,
                                i < 4,
                                p < l,
                                j < 4,
                                j != i,
                                q <= l,
                                c1 == sv[i as int][p as int],
                                r@.no_duplicates(),
                                forall|d: Digraph|
                                    #[trigger] r@.contains(d) <==> produced_before(
                                        sv,
                                        d,
                                        i as int,
                                        p as int,
                                        j as int,
                                        q as int,
                                    ),
                                r@.len() == i * (3 * l * l) + p * (3 * l) + other_sides_before(
                                    i as int,
                                    j as int,
                                ) * l + q,
                            decreases l - q,
                        {
                            proof {
                                assert(sv[j as int].len() == l);
                                assert(sides@[j as int]@.len() == l);
                            }
                            let c2 = sides[j].as_str().get_char(q);
                            let d = Digraph { first: c1, second: c2 };
                            proof {
                                assert(c2 == sv[j as int][q as int]);
                                assert(!r@.contains(d)) by {
                                    if r@.contains(d) {
                                        let (a, b, e, f): (int, int, int, int) = choose|
                                            a: int,
                                            b: int,
                                            e: int,
                                            f: int,
                                        |
                                            #[trigger] pair_at(sv, d, a, b, e, f) && iter_before(
                                                a,
                                                b,
                                                e,
                                                f,
                                                i as int,
                                                p as int,
                                                j as int,
                                                q as int,
                                            );
                                        assert(sv[a][b] == sv[i as int][p as int]);
                                        assert(a == i as int && b == p as int);
                                        assert(sv[e][f] == sv[j as int][q as int]);
                                        assert(e == j as int && f == q as int);
                                        assert(!iter_before(
                                            a,
                                            b,
                                            e,
                                            f,
                                            i as int,
                                            p as int,
                                            j as int,
                                            q as int,
                                        ));
                                    }
                                }
                            }
                            let ghost r_old = r@;
                            r.push(d);
                            proof {
                                assert(r@ == r_old.push(d));
                                assert(r@.no_duplicates()) by {
                                    assert forall|k1: int, k2: int|
                                        0 <= k1 < r@.len() && 0 <= k2 < r@.len() && k1 != k2
                                        implies r@[k1] != r@[k2] by {
                                        if k1 < r_old.len() && k2 < r_old.len() {
                                            assert(r_old[k1] != r_old[k2]);
                                        } else if k2 == r_old.len() {
                                            if r@[k1] == d {
                                                assert(r_old[k1] == d);
                                                assert(r_old.contains(d));
                                            }
                                        } else {
                                            if r@[k2] == d {
                                                assert(r_old[k2] == d);
                                                assert(r_old.contains(d));
                                            }
                                        }
                                    }
                                }
                                assert(pair_at(sv, d, i as int, p as int, j as int, q as int));
                                assert forall|d2: Digraph| #[trigger]
                                    r@.contains(d2) <==> produced_before(
                                    sv,
                                    d2,
                                    i as int,
                                    p as int,
                                    j as int,
                                    q + 1,
                                ) by {
                                    if r@.contains(d2) {
                                        if r_old.contains(d2) {
                                            let (a, b, e, f): (int, int, int, int) = choose|
                                                a: int,
                                                b: int,
                                                e: int,
                                                f: int,
                                            |
                                                #[trigger] pair_at(sv, d2, a, b, e, f)
                                                    && iter_before(
                                                    a,
                                                    b,
                                                    e,
                                                    f,
                                                    i as int,
                                                    p as int,
                                                    j as int,
                                                    q as int,
                                                );
                                            assert(iter_before(
                                                a,
                                                b,
                                                e,
                                                f,
                                                i as int,
                                                p as int,
                                                j as int,
                                                q + 1,
                                            ));
                                        } else {
                                            assert(d2 == d);
                                            assert(iter_before(
                                                i as int,
                                                p as int,
                                                j as int,
                                                q as int,
                                                i as int,
                                                p as int,
                                                j as int,
                                                q + 1,
                                            ));
                                        }
                                        assert(produced_before(
                                            sv,
                                            d2,
                                            i as int,
                                            p as int,
                                            j as int,
                                            q + 1,
                                        ));
                                    }
                                    if produced_before(sv, d2, i as int, p as int, j as int, q + 1) {
                                        let (a, b, e, f): (int, int, int, int) = choose|
                                            a: int,
                                            b: int,
                                            e: int,
                                            f: int,
                                        |
                                            #[trigger] pair_at(sv, d2, a, b, e, f) && iter_before(
                                                a,
                                                b,
                                                e,
                                                f,
                                                i as int,
                                                p as int,
                                                j as int,
                                                q + 1,
                                            );
                                        if iter_before(
                                            a,
                                            b,
                                            e,
                                            f,
                                            i as int,
                                            p as int,
                                            j as int,
                                            q as int,
                                        ) {
                                            assert(r_old.contains(d2));
                                            assert(r@.contains(d2));
                                        } else {
                                            assert(a == i as int && b == p as int && e == j as int
                                                && f == q as int);
                                            assert(d2 == d);
                                            assert(r@[r@.len() - 1] == d);
                                            assert(r@.contains(d2));
                                        }
                                    }
                                }
                            }
                            q = q + 1;
                        }
                        proof {
                            assert forall|d2: Digraph| #[trigger]
                                produced_before(sv, d2, i as int, p as int, j as int, l as int)
                                <==> produced_before(sv, d2, i as int, p as int, j + 1, 0) by {
                                if produced_before(sv, d2, i as int, p as int, j as int, l as int) {
                                    let (a, b, e, f): (int, int, int, int) = choose|
                                        a: int,
                                        b: int,
                                        e: int,
                                        f: int,
                                    |
                                        #[trigger] pair_at(sv, d2, a, b, e, f) && iter_before(
                                            a,
                                            b,
                                            e,
                                            f,
                                            i as int,
                                            p as int,
                                            j as int,
                                            l as int,
                                        );
                                    assert(iter_before(a, b, e, f, i as int, p as int, j + 1, 0));
                                }
                                if produced_before(sv, d2, i as int, p as int, j + 1, 0) {
                                    let (a, b, e, f): (int, int, int, int) = choose|
                                        a: int,
                                        b: int,
                                        e: int,
                                        f: int,
                                    |
                                        #[trigger] pair_at(sv, d2, a, b, e, f) && iter_before(
                                            a,
                                            b,
                                            e,
                                            f,
                                            i as int,
                                            p as int,
                                            j + 1,
                                            0,
                                        );
                                    assert(sv[e].len() == l);
                                    assert(iter_before(
                                        a,
                                        b,
                                        e,
                                        f,
                                        i as int,
                                        p as int,
                                        j as int,
                                        l as int,
                                    ));
                                }
                            }
                            assert(other_sides_before(i as int, j + 1) == other_sides_before(
                                i as int,
                                j as int,
                            ) + 1);
                            assert((other_sides_before(i as int, j as int) + 1) * l
                                == other_sides_before(i as int, j as int) * l + l)
                                by (nonlinear_arith);
                        }
                    } else {
                        proof {
                            assert forall|d2: Digraph| #[trigger]
                                produced_before(sv, d2, i as int, p as int, j as int, 0)
                                <==> produced_before(sv, d2, i as int, p as int, j + 1, 0) by {
                                if produced_before(sv, d2, i as int, p as int, j as int, 0) {
                                    let (a, b, e, f): (int, int, int, int) = choose|
                                        a: int,
                                        b: int,
                                        e: int,
                                        f: int,
                                    |
                                        #[trigger] pair_at(sv, d2, a, b, e, f) && iter_before(
                                            a,
                                            b,
                                            e,
                                            f,
                                            i as int,
                                            p as int,
                                            j as int,
                                            0,
                                        );
                                    assert(iter_before(a, b, e, f, i as int, p as int, j + 1, 0));
                                }
                                if produced_before(sv, d2, i as int, p as int, j + 1, 0) {
                                    let (a, b, e, f): (int, int, int, int) = choose|
                                        a: int,
                                        b: int,
                                        e: int,
                                        f: int,
                                    |
                                        #[trigger] pair_at(sv, d2, a, b, e, f) && iter_before(
                                            a,
                                            b,
                                            e,
                                            f,
                                            i as int,
                                            p as int,
                                            j + 1,
                                            0,
                                        );
                                    // A pair starting at (i, p) cannot use side j == i
                                    // for its second letter.
                                    assert(e != a);
                                    if a == i as int && b == p as int && e == j as int {
                                        assert(false);
                                    }
                                    assert(iter_before(
                                        a,
                                        b,
                                        e,
                                        f,
                                        i as int,
                                        p as int,
                                        j as int,
                                        0,
                                    ));
                                }
                            }
                            assert(other_sides_before(i as int, j + 1) == other_sides_before(
                                i as int,
                                j as int,
                            ));
                        }
                    }
                    j = j + 1;
                }
                proof {
                    assert forall|d2: Digraph| #[trigger]
                        produced_before(sv, d2, i as int, p as int, 4, 0) <==> produced_before(
                        sv,
                        d2,
                        i as int,
                        p + 1,
                        0,
                        0,
                    ) by {
                        if produced_before(sv, d2, i as int, p as int, 4, 0) {
                            let (a, b, e, f): (int, int, int, int) = choose|
                                a: int,
                                b: int,
                                e: int,
                                f: int,
                            |
                                #[trigger] pair_at(sv, d2, a, b, e, f) && iter_before(
                                    a,
                                    b,
                                    e,
                                    f,
                                    i as int,
                                    p as int,
                                    4,
                                    0,
                                );
                            assert(iter_before(a, b, e, f, i as int, p + 1, 0, 0));
                        }
                        if produced_before(sv, d2, i as int, p + 1, 0, 0) {
                            let (a, b, e, f): (int, int, int, int) = choose|
                                a: int,
                                b: int,
                                e: int,
                                f: int,
                            |
                                #[trigger] pair_at(sv, d2, a, b, e, f) && iter_before(
                                    a,
                                    b,
                                    e,
                                    f,
                                    i as int,
                                    p + 1,
                                    0,
                                    0,
                                );
                            assert(e < 4);
                            assert(iter_before(a, b, e, f, i as int, p as int, 4, 0));
                        }
                    }
                    assert(other_sides_before(i as int, 4) == 3);
                    assert(i * (3 * l * l) + p * (3 * l) + 3 * l == i * (3 * l * l) + (p + 1) * (3
                        * l)) by (nonlinear_arith);
                }
                p = p + 1;
            }
            proof {
                assert forall|d2: Digraph| #[trigger]
                    produced_before(sv, d2, i as int, l as int, 0, 0) <==> produced_before(
                    sv,
                    d2,
                    i + 1,
                    0,
                    0,
                    0,
                ) by {
                    if produced_before(sv, d2, i as int, l as int, 0, 0) {
                        let (a, b, e, f): (int, int, int, int) = choose|
                            a: int,
                            b: int,
                            e: int,
                            f: int,
                        |
                            #[trigger] pair_at(sv, d2, a, b, e, f) && iter_before(
                                a,
                                b,
                                e,
                                f,
                                i as int,
                                l as int,
                                0,
                                0,
                            );
                        assert(iter_before(a, b, e, f, i + 1, 0, 0, 0));
                    }
                    if produced_before(sv, d2, i + 1, 0, 0, 0) {
                        let (a, b, e, f): (int, int, int, int) = choose|
                            a: int,
                            b: int,
                            e: int,
                            f: int,
                        |
                            #[trigger] pair_at(sv, d2, a, b, e, f) && iter_before(
                                a,
                                b,
                                e,
                                f,
                                i + 1,
                                0,
                                0,
                                0,
                            );
                        assert(sv[a].len() == l);
                        assert(iter_before(a, b, e, f, i as int, l as int, 0, 0));
                    }
                }
                assert(i * (3 * l * l) + l * (3 * l) == (i + 1) * (3 * l * l))
                    by (nonlinear_arith);
            }
            i = i + 1;
        }
        proof {
            assert forall|d: Digraph| #[trigger]
                r@.contains(d) <==> legal_digraph(sv, d) by {
                if r@.contains(d) {
                    let (a, b, e, f): (int, int, int, int) = choose|a: int, b: int, e: int, f: int|
                        #[trigger] pair_at(sv, d, a, b, e, f) && iter_before(
                            a,
                            b,
                            e,
                            f,
                            4,
                            0,
                            0,
                            0,
                        );
                    assert(sv[a].contains(d.first)) by {
                        assert(sv[a][b] == d.first);
                    }
                    assert(sv[e].contains(d.second)) by {
                        assert(sv[e][f] == d.second);
                    }
                    assert(legal_digraph(sv, d));
                }
                if legal_digraph(sv, d) {
                    let (a, e): (int, int) = choose|a: int, e: int|
                        0 <= a < sv.len() && 0 <= e < sv.len() && a != e && (
                        #[trigger] sv[a]).contains(d.first) && (#[trigger] sv[e]).contains(
                            d.second,
                        );
                    let b = choose|b: int| 0 <= b < sv[a].len() && sv[a][b] == d.first;
                    let f = choose|f: int| 0 <= f < sv[e].len() && sv[e][f] == d.second;
                    assert(pair_at(sv, d, a, b, e, f));
                    assert(iter_before(a, b, e, f, 4, 0, 0, 0));
                    assert(produced_before(sv, d, 4, 0, 0, 0));
                }
            }
            assert(board_letter_count(sv) == 4 * l);
            assert(4 * (3 * l * l) == (4 * l) * ((4 * l) - l)) by (nonlinear_arith);
        }
        r
    }
}

/// Lower-cases an ASCII capital; leaves every other character unchanged.
pub open spec fn to_lower(c: char) -> char {
    if 'A' <= c && c <= 'Z' {
        (c as int + 32) as char
    } else {
        c
    }
}

/// A sequence of characters, each lower-cased.
pub open spec fn lower_seq(s: Seq<char>) -> Seq<char> {
    s.map_values(|c: char| to_lower(c))
}

/// The characters a comma-separated board specification may hold: letters of
/// either case and the comma itself.
pub open spec fn is_spec_char(c: char) -> bool {
    c == ',' || is_lower_alpha(c) || ('A' <= c && c <= 'Z')
}

/// The index of the first comma of `s`, or `s.len()` if there is none.
pub open spec fn first_comma(s: Seq<char>) -> nat {
    crate::scan::first_sep(s, ',')
}

/// Splits `s` at its commas: the segments between commas, in order, kept
/// even when empty. A string without commas is one segment.
pub open spec fn split_commas(s: Seq<char>) -> Seq<Seq<char>> {
    crate::scan::split_sep(s, ',')
}

/// The segments of `s` split at commas, each lower-cased: what a valid
/// board specification turns into.
pub open spec fn split_lower(s: Seq<char>) -> Seq<Seq<char>> {
    split_commas(s).map_values(|t: Seq<char>| lower_seq(t))
}

/// Lower-cases one character, capitals only.
fn lower_char(c: char) -> (r: char)
    ensures
        r == to_lower(c),
{
    if 'A' <= c && c <= 'Z' {
        ((c as u8) + 32) as char
    } else {
        c
    }
}

/// Parses a comma-separated board specification such as a command line
/// hands over: rejects any character that is neither a letter nor a comma,
/// then splits at the commas and lower-cases each segment.
pub fn validate_board_spec(board_spec: &str) -> (r: Result<Vec<String>, ValidationError>)
    ensures
        r is Ok <==> (forall|k: int|
            0 <= k < board_spec@.len() ==> is_spec_char(#[trigger] board_spec@[k])),
        match r {
            Ok(sides) => side_views(sides@) == split_lower(board_spec@),
            Err(e) => match e {
                ValidationError::SpecCharacter { position, letter } => {
                    &&& 0 <= position < board_spec@.len()
                    &&& letter == board_spec@[position as int]
                    &&& !is_spec_char(letter)
                    &&& forall|k: int|
                        0 <= k < position ==> is_spec_char(#[trigger] board_spec@[k])
                },
                _ => false,
            },
        },
{
    let n = board_spec.unicode_len();
    let mut acc: Vec<String> = Vec::new();
    let mut cur: String = String::new();
    let mut i: usize = 0;
    proof {
        assert(board_spec@.take(0) =~= Seq::<char>::empty());
        assert(first_comma(Seq::<char>::empty()) == 0);
        assert(split_commas(Seq::<char>::empty()) == seq![Seq::<char>::empty()]);
        assert(side_views(acc@) =~= split_lower(board_spec@.take(0)).drop_last());
        assert(lower_seq(Seq::<char>::empty()) =~= Seq::<char>::empty());
        assert(cur@ =~= lower_seq(split_commas(board_spec@.take(0)).last()));
    }
    while i < n
        invariant
            n == board_spec@.len(),
            i <= n,
            forall|k: int| 0 <= k < i ==> is_spec_char(#[trigger] board_spec@[k]),
            split_commas(board_spec@.take(i as int)).len() >= 1,
            side_views(acc@) =~= split_lower(board_spec@.take(i as int)).drop_last(),
            cur@ =~= lower_seq(split_commas(board_spec@.take(i as int)).last()),
        decreases n - i,
    {
        let c = board_spec.get_char(i);
        let ghost pre = board_spec@.take(i as int);
        let ghost post = board_spec@.take(i + 1);
        proof {
            assert(post =~= pre.push(c));
            crate::scan::lemma_split_sep_push(pre, ',', c);
            crate::scan::lemma_split_sep_len(pre, ',');
            crate::scan::lemma_split_sep_len(post, ',');
        }
        if c == ',' {
            acc.push(cur);
            cur = String::new();
            proof {
                assert(split_commas(post) == split_commas(pre).push(Seq::empty()));
                assert(split_lower(post) =~= split_lower(pre).push(lower_seq(Seq::empty())));
                assert(split_lower(post).drop_last() =~= split_lower(pre));
                assert(split_lower(pre) =~= split_lower(pre).drop_last().push(lower_seq(
                    split_commas(pre).last(),
                )));
                assert(side_views(acc@) =~= split_lower(post).drop_last());
                assert(lower_seq(Seq::<char>::empty()) =~= Seq::<char>::empty());
            }
        } else if ('a' <= c && c <= 'z') || ('A' <= c && c <= 'Z') {
            let lc = lower_char(c);
            cur.push(lc);
            proof {
                assert(split_commas(post) == split_commas(pre).drop_last().push(
                    split_commas(pre).last().push(c),
                ));
                assert(split_lower(post) =~= split_lower(pre).drop_last().push(lower_seq(
                    split_commas(pre).last().push(c),
                )));
                assert(split_lower(post).drop_last() =~= split_lower(pre).drop_last());
                assert(lower_seq(split_commas(pre).last().push(c)) =~= lower_seq(
                    split_commas(pre).last(),
                ).push(to_lower(c)));
                assert(side_views(acc@) =~= split_lower(post).drop_last());
                assert(cur@ =~= lower_seq(split_commas(post).last()));
            }
        } else {
            return Err(ValidationError::SpecCharacter { position: i, letter: c });
        }
        i = i + 1;
    }
    acc.push(cur);
    proof {
        assert(board_spec@.take(n as int) =~= board_spec@);
        assert(side_views(acc@) =~= split_lower(board_spec@).drop_last().push(lower_seq(
            split_commas(board_spec@).last(),
        )));
        crate::scan::lemma_split_sep_len(board_spec@, ',');
        assert(split_lower(board_spec@).len() >= 1);
        assert(split_lower(board_spec@).last() == lower_seq(split_commas(board_spec@).last()));
        assert(side_views(acc@) =~= split_lower(board_spec@));
    }
    Ok(acc)
}

/// All letters of a board, sides in order, left to right within a side.
pub open spec fn board_letters(sides: Seq<Seq<char>>) -> Seq<char> {
    sides[0] + sides[1] + sides[2] + sides[3]
}

/// A word is playable on a layout when each of its digraphs is legal there.
pub open spec fn word_playable(sides: Seq<Seq<char>>, w: Word) -> bool {
    forall|k: int| 0 <= k < w.digraphs@.len() ==> legal_digraph(sides, #[trigger] w.digraphs@[k])
}

/// Two dictionary entries with the same word, frequency and digraphs.
pub open spec fn word_like(a: Word, b: Word) -> bool {
    &&& a.word@ == b.word@
    &&& a.frequency == b.frequency
    &&& a.digraphs@ == b.digraphs@
}

/// Two entry sequences equal entry by entry.
pub open spec fn words_like(a: Seq<Word>, b: Seq<Word>) -> bool {
    &&& a.len() == b.len()
    &&& forall|k: int| 0 <= k < a.len() ==> word_like(#[trigger] a[k], b[k])
}

pub proof fn lemma_filter_push<A>(s: Seq<A>, p: spec_fn(A) -> bool, x: A)
    ensures
        s.push(x).filter(p) == if p(x) {
            s.filter(p).push(x)
        } else {
            s.filter(p)
        },
{
    reveal(Seq::filter);
    assert(s.push(x).drop_last() =~= s);
    assert(s.push(x).last() == x);
}

proof fn lemma_filter_idempotent<A>(s: Seq<A>, p: spec_fn(A) -> bool)
    ensures
        s.filter(p).filter(p) == s.filter(p),
    decreases s.len(),
{
    reveal(Seq::filter);
    if s.len() == 0 {
        assert(s.filter(p) =~= Seq::<A>::empty());
        assert(s.filter(p).filter(p) =~= Seq::<A>::empty());
    } else {
        let d = s.drop_last();
        lemma_filter_idempotent(d, p);
        assert(s.filter(p) == if p(s.last()) {
            d.filter(p).push(s.last())
        } else {
            d.filter(p)
        });
        if p(s.last()) {
            lemma_filter_push(d.filter(p), p, s.last());
        }
    }
}

proof fn lemma_filter_respects_like(sides: Seq<Seq<char>>, a: Seq<Word>, b: Seq<Word>)
    requires
        words_like(a, b),
    ensures
        words_like(
            a.filter(|w: Word| word_playable(sides, w)),
            b.filter(|w: Word| word_playable(sides, w)),
        ),
    decreases a.len(),
{
    reveal(Seq::filter);
    let p = |w: Word| word_playable(sides, w);
    if a.len() == 0 {
        assert(a.filter(p) =~= Seq::<Word>::empty());
        assert(b.filter(p) =~= Seq::<Word>::empty());
    } else {
        let da = a.drop_last();
        let db = b.drop_last();
        assert(words_like(da, db)) by {
            assert(forall|k: int| 0 <= k < da.len() ==> da[k] == a[k] && db[k] == b[k]);
        }
        lemma_filter_respects_like(sides, da, db);
        assert(word_like(a.last(), b.last()));
        assert(p(a.last()) == p(b.last())) by {
            assert(a.last().digraphs@ == b.last().digraphs@);
        }
        if p(a.last()) {
            assert(words_like(da.filter(p).push(a.last()), db.filter(p).push(b.last()))) by {
                let fa = da.filter(p);
                let fb = db.filter(p);
                assert(forall|k: int|
                    0 <= k < fa.len() ==> fa.push(a.last())[k] == fa[k] && fb.push(b.last())[k]
                        == fb[k]);
                assert(fa.push(a.last())[fa.len() as int] == a.last());
                assert(fb.push(b.last())[fb.len() as int] == b.last());
            }
        }
    }
}

/// Filtering by one board is idempotent: what a second pass over the same
/// board keeps is entry for entry what the first pass kept. The two
/// hypotheses are the contracts of two `playable_dictionary` calls, the
/// second applied to the first's result.
pub proof fn lemma_playable_dictionary_idempotent(
    sides: Seq<Seq<char>>,
    d: Seq<Word>,
    r1: Seq<Word>,
    r2: Seq<Word>,
)
    requires
        words_like(r1, d.filter(|w: Word| word_playable(sides, w))),
        words_like(r2, r1.filter(|w: Word| word_playable(sides, w))),
    ensures
        words_like(r2, r1),
{
    let p = |w: Word| word_playable(sides, w);
    lemma_filter_respects_like(sides, r1, d.filter(p));
    lemma_filter_idempotent(d, p);
    assert(words_like(r1.filter(p), d.filter(p)));
    assert(words_like(r2, d.filter(p))) by {
        assert(forall|k: int|
            0 <= k < r2.len() ==> word_like(#[trigger] r2[k], r1.filter(p)[k]) && word_like(
                r1.filter(p)[k],
                d.filter(p)[k],
            ));
    }
    assert(words_like(r2, r1)) by {
        assert(forall|k: int|
            0 <= k < r2.len() ==> word_like(#[trigger] r2[k], d.filter(p)[k]) && word_like(
                r1[k],
                d.filter(p)[k],
            ));
    }
}

/// A sound word is playable on a board exactly when each consecutive letter
/// pair of the word is a legal digraph there.
pub proof fn lemma_playable_iff_pairs(sides: Seq<Seq<char>>, w: Word)
    requires
        w.wf(),
    ensures
        word_playable(sides, w) <==> (forall|i: int|
            0 <= i < w.word@.len() - 1 ==> legal_digraph(
                sides,
                Digraph { first: #[trigger] w.word@[i], second: w.word@[i + 1] },
            )),
{
    if word_playable(sides, w) {
        assert forall|i: int| 0 <= i < w.word@.len() - 1 implies legal_digraph(
            sides,
            Digraph { first: #[trigger] w.word@[i], second: w.word@[i + 1] },
        ) by {
            assert(w.digraphs@[i] == (Digraph { first: w.word@[i], second: w.word@[i + 1] }));
            assert(legal_digraph(sides, w.digraphs@[i]));
        }
    }
    if forall|i: int|
        0 <= i < w.word@.len() - 1 ==> legal_digraph(
            sides,
            Digraph { first: #[trigger] w.word@[i], second: w.word@[i + 1] },
        ) {
        assert forall|k: int| 0 <= k < w.digraphs@.len() implies legal_digraph(
            sides,
            #[trigger] w.digraphs@[k],
        ) by {
            assert(w.digraphs@[k] == (Digraph { first: w.word@[k], second: w.word@[k + 1] }));
        }
    }
}

impl Board {
    /// Keeps the words of a dictionary playable on this board, in their
    /// order, and derives the filtered digraph union anew. The board and the
    /// given dictionary are read, never changed, so the filtering can be
    /// repeated with other boards at will.
    pub fn playable_dictionary(&self, dictionary: &Dictionary) -> (r: Dictionary)
        requires
            self.wf(),
        ensures
            words_like(
                r.words@,
                dictionary.words@.filter(|w: Word| word_playable(self.sides_view(), w)),
            ),
            r.wf(),
    {
        let ghost p = |w: Word| word_playable(self.sides_view(), w);
        let mut kept: Vec<Word> = Vec::new();
        let mut k: usize = 0;
        proof {
            reveal(Seq::filter);
            assert(dictionary.words@.take(0) =~= Seq::<Word>::empty());
            assert(words_like(kept@, dictionary.words@.take(0).filter(p)));
        }
        while k < dictionary.words.len()
            invariant
                self.wf(),
                p == (|w: Word| word_playable(self.sides_view(), w)),
                k <= dictionary.words@.len(),
                words_like(kept@, dictionary.words@.take(k as int).filter(p)),
            decreases dictionary.words@.len() - k,
        {
            let ref w = dictionary.words[k];
            let mut playable = true;
            let mut m: usize = 0;
            while m < w.digraphs.len() && playable
                invariant
                    self.wf(),
                    w == dictionary.words@[k as int],
                    k < dictionary.words@.len(),
                    m <= w.digraphs@.len(),
                    playable ==> forall|m2: int|
                        0 <= m2 < m ==> legal_digraph(
                            self.sides_view(),
                            #[trigger] w.digraphs@[m2],
                        ),
                    !playable ==> exists|m2: int|
                        0 <= m2 < w.digraphs@.len() && !legal_digraph(
                            self.sides_view(),
                            #[trigger] w.digraphs@[m2],
                        ),
                decreases w.digraphs@.len() - m,
            {
                if !contains_digraph(&self.digraphs, w.digraphs[m]) {
                    playable = false;
                    proof {
                        assert(!legal_digraph(self.sides_view(), w.digraphs@[m as int]));
                    }
                }
                m = m + 1;
            }
            proof {
                assert(playable == p(dictionary.words@[k as int]));
                assert(dictionary.words@.take(k + 1).drop_last() =~= dictionary.words@.take(
                    k as int,
                ));
                assert(dictionary.words@.take(k + 1) =~= dictionary.words@.take(k as int).push(
                    dictionary.words@[k as int],
                ));
                lemma_filter_push(dictionary.words@.take(k as int), p, dictionary.words@[k as int]);
            }
            if playable {
                let w2 = dictionary.words[k].duplicate();
                kept.push(w2);
                proof {
                    let fpre = dictionary.words@.take(k as int).filter(p);
                    let fpost = dictionary.words@.take(k + 1).filter(p);
                    assert(fpost == fpre.push(dictionary.words@[k as int]));
                    assert(words_like(kept@, fpost)) by {
                        assert(forall|k2: int|
                            0 <= k2 < fpre.len() ==> kept@[k2] == kept@.drop_last()[k2]
                                && fpost[k2] == fpre[k2]);
                        assert(kept@[kept@.len() - 1] == w2);
                        assert(fpost[fpost.len() - 1] == dictionary.words@[k as int]);
                    }
                }
            } else {
                proof {
                    assert(words_like(kept@, dictionary.words@.take(k + 1).filter(p)));
                }
            }
            k = k + 1;
        }
        proof {
            assert(dictionary.words@.take(dictionary.words@.len() as int) =~= dictionary.words@);
        }
        Dictionary::from_words(kept)
    }
}

/// No digraph built from two letters of the same side is ever legal, and so
/// it never appears in a valid board's digraph set.
pub proof fn lemma_same_side_digraph_never_legal(b: &Board, i: int, j1: int, j2: int)
    requires
        b.wf(),
        0 <= i < 4,
        0 <= j1 < b.sides_view()[i].len(),
        0 <= j2 < b.sides_view()[i].len(),
    ensures
        !legal_digraph(
            b.sides_view(),
            Digraph { first: b.sides_view()[i][j1], second: b.sides_view()[i][j2] },
        ),
        !b.digraphs@.contains(
            Digraph { first: b.sides_view()[i][j1], second: b.sides_view()[i][j2] },
        ),
{
    let sv = b.sides_view();
    let d = Digraph { first: sv[i][j1], second: sv[i][j2] };
    if legal_digraph(sv, d) {
        let (a, e): (int, int) = choose|a: int, e: int|
            0 <= a < sv.len() && 0 <= e < sv.len() && a != e && (#[trigger] sv[a]).contains(
                d.first,
            ) && (#[trigger] sv[e]).contains(d.second);
        let w1 = choose|w: int| 0 <= w < sv[a].len() && sv[a][w] == d.first;
        assert(sv[a][w1] == sv[i][j1]);
        assert(a == i);
        let w2 = choose|w: int| 0 <= w < sv[e].len() && sv[e][w] == d.second;
        assert(sv[e][w2] == sv[i][j2]);
        assert(e == i);
    }
}

} // verus!
