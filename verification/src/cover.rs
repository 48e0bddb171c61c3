//! Exact cover over bitmask rows.
//!
//! The alternative solving strategy: model the puzzle as an exact-cover
//! instance whose universe is the board alphabet and whose subsets are the
//! playable words, and search it the classic way, always branching on the
//! thinnest uncovered column. With at most 32 universe elements a subset is
//! one machine word, so rows are bitmasks and the matrix never needs to be
//! sliced: the search passes down which rows are still of interest and which
//! columns are covered. Every returned selection is a true exact cover:
//! pairwise disjoint rows whose union is the whole universe. Conversely the
//! search misses nothing: an empty result means no exact cover exists, and
//! every cover made of contributing rows comes back exactly once.

use vstd::prelude::*;

use crate::solver::{bit_set, lemma_bit_or, mask_all};

verus! {

broadcast use vstd::seq_lib::lemma_seq_contains_after_push;

/// The set of elements an exact-cover instance must cover, each exactly
/// once.
pub struct Universe<T> {
    pub elements: Vec<T>,
}

impl<T> Universe<T> {
    /// Wraps the elements to cover.
    pub fn new(elements: Vec<T>) -> (r: Universe<T>)
        ensures
            r.elements@ == elements@,
    {
        Universe { elements }
    }
}

/// The selections an exact-cover search found, each a list of subset labels.
pub struct Solution<L> {
    pub solutions: Vec<Vec<L>>,
}

impl<L> Solution<L> {
    /// Wraps found selections.
    pub fn new(solutions: Vec<Vec<L>>) -> (r: Solution<L>)
        ensures
            r.solutions@ == solutions@,
    {
        Solution { solutions }
    }
}

/// The union of the masks a selection picks.
pub open spec fn sel_union(masks: Seq<u32>, sel: Seq<usize>) -> u32
    decreases sel.len(),
{
    if sel.len() == 0 {
        0u32
    } else {
        masks[sel[0] as int] | sel_union(masks, sel.drop_first())
    }
}

/// Every picked row index is a row of the instance.
pub open spec fn sel_in_range(masks: Seq<u32>, sel: Seq<usize>) -> bool {
    forall|i: int| 0 <= i < sel.len() ==> (#[trigger] sel[i]) < masks.len()
}

/// The picked rows overlap neither each other nor the already covered
/// columns.
pub open spec fn sel_disjoint(masks: Seq<u32>, sel: Seq<usize>, covered: u32) -> bool {
    &&& forall|i: int, j: int|
        0 <= i < j < sel.len() ==> masks[(#[trigger] sel[i]) as int] & masks[(
        #[trigger] sel[j]) as int] == 0
    &&& forall|i: int| 0 <= i < sel.len() ==> masks[(#[trigger] sel[i]) as int] & covered == 0
}

/// A selection that completes `covered` to exactly `full`.
pub open spec fn sel_covers(masks: Seq<u32>, sel: Seq<usize>, covered: u32, full: u32) -> bool {
    &&& sel_in_range(masks, sel)
    &&& sel_disjoint(masks, sel, covered)
    &&& covered | sel_union(masks, sel) == full
}

proof fn lemma_or_zero(x: u32)
    ensures
        x | 0u32 == x,
        0u32 | x == x,
        x & 0u32 == 0u32,
{
    assert(x | 0u32 == x && 0u32 | x == x && x & 0u32 == 0u32) by (bit_vector);
}

proof fn lemma_or_assoc(x: u32, y: u32, z: u32)
    ensures
        x | (y | z) == (x | y) | z,
{
    assert(x | (y | z) == (x | y) | z) by (bit_vector);
}

proof fn lemma_and_or_split(a: u32, c: u32, m: u32)
    ensures
        (a & (c | m) == 0) == (a & c == 0 && a & m == 0),
{
    assert((a & (c | m) == 0) == (a & c == 0 && a & m == 0)) by (bit_vector);
}

/// Two words with the same bits are the same word.
proof fn lemma_u32_eq_from_bits(x: u32, y: u32)
    requires
        forall|b: int| 0 <= b < 32 ==> #[trigger] bit_set(x, b) == bit_set(y, b),
    ensures
        x == y,
{
    assert(bit_set(x, 0) == bit_set(y, 0));
    assert(bit_set(x, 1) == bit_set(y, 1));
    assert(bit_set(x, 2) == bit_set(y, 2));
    assert(bit_set(x, 3) == bit_set(y, 3));
    assert(bit_set(x, 4) == bit_set(y, 4));
    assert(bit_set(x, 5) == bit_set(y, 5));
    assert(bit_set(x, 6) == bit_set(y, 6));
    assert(bit_set(x, 7) == bit_set(y, 7));
    assert(bit_set(x, 8) == bit_set(y, 8));
    assert(bit_set(x, 9) == bit_set(y, 9));
    assert(bit_set(x, 10) == bit_set(y, 10));
    assert(bit_set(x, 11) == bit_set(y, 11));
    assert(bit_set(x, 12) == bit_set(y, 12));
    assert(bit_set(x, 13) == bit_set(y, 13));
    assert(bit_set(x, 14) == bit_set(y, 14));
    assert(bit_set(x, 15) == bit_set(y, 15));
    assert(bit_set(x, 16) == bit_set(y, 16));
    assert(bit_set(x, 17) == bit_set(y, 17));
    assert(bit_set(x, 18) == bit_set(y, 18));
    assert(bit_set(x, 19) == bit_set(y, 19));
    assert(bit_set(x, 20) == bit_set(y, 20));
    assert(bit_set(x, 21) == bit_set(y, 21));
    assert(bit_set(x, 22) == bit_set(y, 22));
    assert(bit_set(x, 23) == bit_set(y, 23));
    assert(bit_set(x, 24) == bit_set(y, 24));
    assert(bit_set(x, 25) == bit_set(y, 25));
    assert(bit_set(x, 26) == bit_set(y, 26));
    assert(bit_set(x, 27) == bit_set(y, 27));
    assert(bit_set(x, 28) == bit_set(y, 28));
    assert(bit_set(x, 29) == bit_set(y, 29));
    assert(bit_set(x, 30) == bit_set(y, 30));
    assert(bit_set(x, 31) == bit_set(y, 31));
    assert(((((x >> 0u32) & 1u32 == 1u32) == ((y >> 0u32) & 1u32 == 1u32)) && (((x >> 1u32) & 1u32 == 1u32) == ((y >> 1u32) & 1u32 == 1u32)) && (((x >> 2u32) & 1u32 == 1u32) == ((y >> 2u32) & 1u32 == 1u32)) && (((x >> 3u32) & 1u32 == 1u32) == ((y >> 3u32) & 1u32 == 1u32)) && (((x >> 4u32) & 1u32 == 1u32) == ((y >> 4u32) & 1u32 == 1u32)) && (((x >> 5u32) & 1u32 == 1u32) == ((y >> 5u32) & 1u32 == 1u32)) && (((x >> 6u32) & 1u32 == 1u32) == ((y >> 6u32) & 1u32 == 1u32)) && (((x >> 7u32) & 1u32 == 1u32) == ((y >> 7u32) & 1u32 == 1u32)) && (((x >> 8u32) & 1u32 == 1u32) == ((y >> 8u32) & 1u32 == 1u32)) && (((x >> 9u32) & 1u32 == 1u32) == ((y >> 9u32) & 1u32 == 1u32)) && (((x >> 10u32) & 1u32 == 1u32) == ((y >> 10u32) & 1u32 == 1u32)) && (((x >> 11u32) & 1u32 == 1u32) == ((y >> 11u32) & 1u32 == 1u32)) && (((x >> 12u32) & 1u32 == 1u32) == ((y >> 12u32) & 1u32 == 1u32)) && (((x >> 13u32) & 1u32 == 1u32) == ((y >> 13u32) & 1u32 == 1u32)) && (((x >> 14u32) & 1u32 == 1u32) == ((y >> 14u32) & 1u32 == 1u32)) && (((x >> 15u32) & 1u32 == 1u32) == ((y >> 15u32) & 1u32 == 1u32)) && (((x >> 16u32) & 1u32 == 1u32) == ((y >> 16u32) & 1u32 == 1u32)) && (((x >> 17u32) & 1u32 == 1u32) == ((y >> 17u32) & 1u32 == 1u32)) && (((x >> 18u32) & 1u32 == 1u32) == ((y >> 18u32) & 1u32 == 1u32)) && (((x >> 19u32) & 1u32 == 1u32) == ((y >> 19u32) & 1u32 == 1u32)) && (((x >> 20u32) & 1u32 == 1u32) == ((y >> 20u32) & 1u32 == 1u32)) && (((x >> 21u32) & 1u32 == 1u32) == ((y >> 21u32) & 1u32 == 1u32)) && (((x >> 22u32) & 1u32 == 1u32) == ((y >> 22u32) & 1u32 == 1u32)) && (((x >> 23u32) & 1u32 == 1u32) == ((y >> 23u32) & 1u32 == 1u32)) && (((x >> 24u32) & 1u32 == 1u32) == ((y >> 24u32) & 1u32 == 1u32)) && (((x >> 25u32) & 1u32 == 1u32) == ((y >> 25u32) & 1u32 == 1u32)) && (((x >> 26u32) & 1u32 == 1u32) == ((y >> 26u32) & 1u32 == 1u32)) && (((x >> 27u32) & 1u32 == 1u32) == ((y >> 27u32) & 1u32 == 1u32)) && (((x >> 28u32) & 1u32 == 1u32) == ((y >> 28u32) & 1u32 == 1u32)) && (((x >> 29u32) & 1u32 == 1u32) == ((y >> 29u32) & 1u32 == 1u32)) && (((x >> 30u32) & 1u32 == 1u32) == ((y >> 30u32) & 1u32 == 1u32)) && (((x >> 31u32) & 1u32 == 1u32) == ((y >> 31u32) & 1u32 == 1u32))) ==> x == y) by (bit_vector);
}

/// Taking one row out of a selection takes exactly its mask out of the union.
proof fn lemma_sel_union_remove(masks: Seq<u32>, sel: Seq<usize>, i0: int)
    requires
        sel_in_range(masks, sel),
        0 <= i0 < sel.len(),
    ensures
        masks[sel[i0] as int] | sel_union(masks, sel.take(i0) + sel.skip(i0 + 1)) == sel_union(
            masks,
            sel,
        ),
    decreases sel.len(),
{
    if i0 == 0 {
        assert(sel.take(0) + sel.skip(1) =~= sel.drop_first());
    } else {
        let df = sel.drop_first();
        assert(sel_in_range(masks, df)) by {
            assert(forall|i: int| 0 <= i < df.len() ==> df[i] == sel[i + 1]);
        }
        lemma_sel_union_remove(masks, df, i0 - 1);
        let rest = sel.take(i0) + sel.skip(i0 + 1);
        let rest_df = df.take(i0 - 1) + df.skip(i0);
        assert(rest[0] == sel[0]);
        assert(rest.drop_first() =~= rest_df);
        assert(sel_union(masks, rest) == masks[sel[0] as int] | sel_union(masks, rest_df));
        assert(df[i0 - 1] == sel[i0]);
        let a = masks[sel[i0] as int];
        let b = masks[sel[0] as int];
        let c = sel_union(masks, rest_df);
        assert(a | (b | c) == b | (a | c)) by (bit_vector);
        assert(sel_union(masks, sel) == masks[sel[0] as int] | sel_union(masks, df));
    }
}

/// A selection that completes `covered` to `full` using rows of `active`
/// only.
pub open spec fn covering_from(
    masks: Seq<u32>,
    active: Seq<usize>,
    sel: Seq<usize>,
    covered: u32,
    full: u32,
) -> bool {
    &&& sel_covers(masks, sel, covered, full)
    &&& forall|i: int| 0 <= i < sel.len() ==> active.contains(#[trigger] sel[i])
}

/// Testing a column by mask agrees with reading its bit.
proof fn lemma_bit_test(x: u32, k: int)
    requires
        0 <= k < 32,
    ensures
        (x & (1u32 << (k as u32)) != 0) == bit_set(x, k),
{
    let ku = k as u32;
    assert(ku < 32 ==> ((x & (1u32 << ku) != 0) == ((x >> ku) & 1u32 == 1u32))) by (bit_vector);
}

/// Row `i` of the selection stands at position `p` of the active rows and
/// touches the chosen column.
pub open spec fn chosen_witness(
    masks: Seq<u32>,
    active: Seq<usize>,
    sel: Seq<usize>,
    chosen_bit: u32,
    i: int,
    p: int,
) -> bool {
    &&& 0 <= i < sel.len()
    &&& 0 <= p < active.len()
    &&& active[p] == sel[i]
    &&& masks[sel[i] as int] & chosen_bit != 0
}

/// Every picked row has a nonempty mask: it contributes at least one
/// column. Rows with empty masks can pad a cover without changing it, and
/// the search never picks one.
pub open spec fn nonzero_rows(masks: Seq<u32>, sel: Seq<usize>) -> bool {
    forall|i: int| 0 <= i < sel.len() ==> masks[(#[trigger] sel[i]) as int] != 0
}

/// Some returned selection picks exactly the rows of `sel`.
pub open spec fn appears(r: Seq<Vec<usize>>, sel: Seq<usize>) -> bool {
    exists|s: int| 0 <= s < r.len() && (#[trigger] r[s])@.to_set() == sel.to_set()
}

/// Taking the chosen row out of a covering selection leaves a covering
/// selection of the reduced state: the remaining rows are still usable and
/// together they complete the enlarged covering.
proof fn lemma_remove_chosen(
    masks: Seq<u32>,
    active: Seq<usize>,
    new_active: Seq<usize>,
    sel: Seq<usize>,
    covered: u32,
    full: u32,
    i: int,
)
    requires
        covering_from(masks, active, sel, covered, full),
        0 <= i < sel.len(),
        forall|p3: int|
            0 <= p3 < active.len() && masks[(#[trigger] active[p3]) as int] & masks[sel[i] as int]
                == 0 ==> new_active.contains(active[p3]),
    ensures
        covering_from(
            masks,
            new_active,
            sel.take(i) + sel.skip(i + 1),
            covered | masks[sel[i] as int],
            full,
        ),
{
    let row_mask = masks[sel[i] as int];
    let new_covered = covered | row_mask;
    let sel2 = sel.take(i) + sel.skip(i + 1);
    assert(forall|j: int|
        0 <= j < sel2.len() ==> sel2[j] == (if j < i {
            sel[j]
        } else {
            sel[j + 1]
        }));
    assert(sel_in_range(masks, sel2));
    lemma_sel_union_remove(masks, sel, i);
    assert(new_covered | sel_union(masks, sel2) == full) by {
        lemma_or_assoc(covered, row_mask, sel_union(masks, sel2));
    }
    assert(sel_disjoint(masks, sel2, new_covered)) by {
        assert forall|j1: int, j2: int| 0 <= j1 < j2 < sel2.len() implies masks[(
        #[trigger] sel2[j1]) as int] & masks[(#[trigger] sel2[j2]) as int] == 0 by {
            let o1: int = if j1 < i {
                j1
            } else {
                j1 + 1
            };
            let o2: int = if j2 < i {
                j2
            } else {
                j2 + 1
            };
            assert(sel2[j1] == sel[o1] && sel2[j2] == sel[o2]);
            assert(o1 < o2);
        }
        assert forall|j: int| 0 <= j < sel2.len() implies masks[(#[trigger] sel2[j]) as int]
            & new_covered == 0 by {
            let o: int = if j < i {
                j
            } else {
                j + 1
            };
            assert(sel2[j] == sel[o]);
            assert(masks[sel[o] as int] & covered == 0);
            assert(masks[sel[o] as int] & row_mask == 0) by {
                if o < i {
                    assert(masks[sel[o] as int] & masks[sel[i] as int] == 0);
                } else {
                    assert(masks[sel[i] as int] & masks[sel[o] as int] == 0);
                    let x = masks[sel[i] as int];
                    let y = masks[sel[o] as int];
                    assert(x & y == 0 ==> y & x == 0) by (bit_vector);
                }
            }
            lemma_and_or_split(masks[sel[o] as int], covered, row_mask);
        }
    }
    assert forall|j: int| 0 <= j < sel2.len() implies new_active.contains(
        #[trigger] sel2[j],
    ) by {
        let o: int = if j < i {
            j
        } else {
            j + 1
        };
        assert(sel2[j] == sel[o]);
        assert(active.contains(sel[o]));
        let p3 = choose|p3: int| 0 <= p3 < active.len() && active[p3] == sel[o];
        assert(masks[sel[o] as int] & row_mask == 0) by {
            if o < i {
                assert(masks[sel[o] as int] & masks[sel[i] as int] == 0);
            } else if o > i {
                assert(masks[sel[i] as int] & masks[sel[o] as int] == 0);
                let x = masks[sel[i] as int];
                let y = masks[sel[o] as int];
                assert(x & y == 0 ==> y & x == 0) by (bit_vector);
            }
        }
        assert(new_active.contains(active[p3]));
    }
}

/// A selection without that row picks the reduced selection's rows plus it.
proof fn lemma_remove_to_set(sel: Seq<usize>, i: int)
    requires
        0 <= i < sel.len(),
    ensures
        sel.to_set() == (sel.take(i) + sel.skip(i + 1)).to_set().insert(sel[i]),
{
    let sel2 = sel.take(i) + sel.skip(i + 1);
    assert(forall|j: int|
        0 <= j < sel2.len() ==> sel2[j] == (if j < i {
            sel[j]
        } else {
            sel[j + 1]
        }));
    assert forall|x: usize| sel.to_set().contains(x) implies sel2.to_set().insert(sel[i]).contains(
        x,
    ) by {
        let j = choose|j: int| 0 <= j < sel.len() && sel[j] == x;
        if j == i {
        } else if j < i {
            assert(sel2[j] == x);
            assert(sel2.contains(x));
        } else {
            assert(sel2[j - 1] == x);
            assert(sel2.contains(x));
        }
    }
    assert forall|x: usize| sel2.to_set().insert(sel[i]).contains(x) implies sel.to_set().contains(
        x,
    ) by {
        if x == sel[i] {
            assert(sel.contains(x));
        } else {
            assert(sel2.contains(x));
            let j = choose|j: int| 0 <= j < sel2.len() && sel2[j] == x;
            if j < i {
                assert(sel[j] == x);
            } else {
                assert(sel[j + 1] == x);
            }
            assert(sel.contains(x));
        }
    }
    assert(sel.to_set() =~= sel2.to_set().insert(sel[i]));
}

/// Prepending the row adds exactly it to the picked-row set.
proof fn lemma_insert_to_set(tail: Seq<usize>, row: usize)
    ensures
        tail.insert(0, row).to_set() == tail.to_set().insert(row),
{
    let e = tail.insert(0, row);
    assert(e[0] == row);
    assert(forall|j: int| 1 <= j < e.len() ==> e[j] == tail[j - 1]);
    assert forall|x: usize| e.to_set().contains(x) implies tail.to_set().insert(row).contains(
        x,
    ) by {
        let j = choose|j: int| 0 <= j < e.len() && e[j] == x;
        if j >= 1 {
            assert(tail[j - 1] == x);
            assert(tail.contains(x));
        }
    }
    assert forall|x: usize| tail.to_set().insert(row).contains(x) implies e.to_set().contains(
        x,
    ) by {
        if x == row {
            assert(e.contains(x));
        } else {
            assert(tail.contains(x));
            let j = choose|j: int| 0 <= j < tail.len() && tail[j] == x;
            assert(e[j + 1] == x);
            assert(e.contains(x));
        }
    }
    assert(e.to_set() =~= tail.to_set().insert(row));
}

/// Searches the instance for every exact cover reachable from a state where
/// the columns of `covered` are already covered and only the rows of
/// `active` are still usable. Branches on the uncovered column the fewest
/// active rows touch, as the classic algorithm prescribes.
fn search_cover(masks: &Vec<u32>, full: u32, active: &Vec<usize>, covered: u32) -> (r: Vec<
    Vec<usize>,
>)
    requires
        active@.no_duplicates(),
        forall|i: int| 0 <= i < active@.len() ==> (#[trigger] active@[i]) < masks@.len(),
        forall|i: int|
            0 <= i < active@.len() ==> masks@[(#[trigger] active@[i]) as int] & covered == 0,
    ensures
        forall|s: int|
            0 <= s < r@.len() ==> sel_covers(masks@, (#[trigger] r@[s])@, covered, full),
        forall|sel: Seq<usize>|
            #[trigger] covering_from(masks@, active@, sel, covered, full) ==> r@.len() >= 1,
        forall|s1: int, s2: int|
            0 <= s1 < s2 < r@.len() ==> (#[trigger] r@[s1])@.to_set() != (
            #[trigger] r@[s2])@.to_set(),
        forall|sel: Seq<usize>|
            (#[trigger] covering_from(masks@, active@, sel, covered, full) && nonzero_rows(
                masks@,
                sel,
            )) ==> appears(r@, sel),
    decreases active@.len(),
{
    if covered == full {
        let mut r: Vec<Vec<usize>> = Vec::new();
        let empty_sel: Vec<usize> = Vec::new();
        r.push(empty_sel);
        proof {
            lemma_or_zero(covered);
            assert(sel_union(masks@, r@[0]@) == 0u32);
            assert(sel_covers(masks@, r@[0]@, covered, full));
            // A covering selection of contributing rows must be empty here:
            // everything its rows would add is covered already, yet they may
            // not overlap the covered columns.
            assert forall|sel: Seq<usize>|
                (#[trigger] covering_from(masks@, active@, sel, covered, full) && nonzero_rows(
                    masks@,
                    sel,
                )) implies appears(r@, sel) by {
                assert(sel.len() == 0) by {
                    if sel.len() > 0 {
                        let m = masks@[sel[0] as int];
                        assert forall|b2: int| 0 <= b2 < 32 implies #[trigger] bit_set(m, b2)
                            == bit_set(0u32, b2) by {
                            let bu = b2 as u32;
                            assert(!((0u32 >> bu) & 1u32 == 1u32)) by (bit_vector);
                            if bit_set(m, b2) {
                                assert(bit_set(masks@[sel[0] as int], b2));
                                lemma_sel_union_bit(masks@, sel, b2);
                                assert(bit_set(sel_union(masks@, sel), b2));
                                lemma_bit_or(covered, sel_union(masks@, sel), b2);
                                assert(bit_set(covered, b2));
                                lemma_bit_and(m, covered, b2);
                                assert(bit_set(m & covered, b2));
                                assert(m & covered == 0);
                                assert(!((0u32 >> bu) & 1u32 == 1u32)) by (bit_vector);
                            }
                        }
                        lemma_u32_eq_from_bits(m, 0u32);
                        assert(m != 0);
                    }
                }
                assert(r@[0]@.to_set() =~= sel.to_set()) by {
                    assert(forall|x: usize| !r@[0]@.contains(x));
                    assert(forall|x: usize| !sel.contains(x));
                }
                assert(appears(r@, sel));
            }
        }
        return r;
    }
    // Pick the uncovered column the fewest active rows touch.
    let mut best: Option<(usize, usize)> = None;
    let mut b: usize = 0;
    while b < 32
        invariant
            b <= 32,
            forall|i: int| 0 <= i < active@.len() ==> (#[trigger] active@[i]) < masks@.len(),
            match best {
                None => forall|b2: int|
                    0 <= b2 < b ==> !(bit_set(full, b2) && !bit_set(covered, b2)),
                Some((col, cnt)) => {
                    &&& col < 32
                    &&& cnt <= active@.len()
                    &&& bit_set(full, col as int)
                    &&& !bit_set(covered, col as int)
                    &&& (cnt == 0 ==> forall|m: int|
                        0 <= m < active@.len() ==> masks@[(#[trigger] active@[m]) as int] & (1u32
                            << (col as u32)) == 0)
                },
            },
        decreases 32 - b,
    {
        let col_bit: u32 = 1u32 << b;
        proof {
            lemma_bit_test(full, b as int);
            lemma_bit_test(covered, b as int);
        }
        if full & col_bit != 0 && covered & col_bit == 0 {
            let mut cnt: usize = 0;
            let mut i: usize = 0;
            while i < active.len()
                invariant
                    b < 32,
                    col_bit == 1u32 << (b as u32),
                    i <= active@.len(),
                    cnt <= i,
                    forall|m: int|
                        0 <= m < active@.len() ==> (#[trigger] active@[m]) < masks@.len(),
                    cnt == 0 ==> forall|m: int|
                        0 <= m < i ==> masks@[(#[trigger] active@[m]) as int] & col_bit == 0,
                decreases active@.len() - i,
            {
                if masks[active[i]] & col_bit != 0 {
                    cnt = cnt + 1;
                }
                i = i + 1;
            }
            let better = match best {
                None => true,
                Some((_, c)) => cnt < c,
            };
            if better {
                best = Some((b, cnt));
            }
        }
        b = b + 1;
    }
    let (chosen_col, chosen_count) = match best {
        None => {
            // Every column of `full` is already covered, yet `covered` is not
            // `full`: the extra covered bits can never be taken away, so no
            // selection completes this state and the empty result is right.
            proof {
                assert forall|sel: Seq<usize>| !covering_from(
                    masks@,
                    active@,
                    sel,
                    covered,
                    full,
                ) by {
                    if covering_from(masks@, active@, sel, covered, full) {
                        assert forall|b2: int| 0 <= b2 < 32 implies #[trigger] bit_set(covered, b2)
                            == bit_set(full, b2) by {
                            lemma_bit_or(covered, sel_union(masks@, sel), b2);
                        }
                        lemma_u32_eq_from_bits(covered, full);
                    }
                }
            }
            let r: Vec<Vec<usize>> = Vec::new();
            return r;
        },
        Some(pair) => pair,
    };
    if chosen_count == 0 {
        // Some column no remaining row can cover: no selection from the
        // active rows can complete this state.
        proof {
            assert forall|sel: Seq<usize>| !covering_from(
                masks@,
                active@,
                sel,
                covered,
                full,
            ) by {
                if covering_from(masks@, active@, sel, covered, full) {
                    lemma_bit_or(covered, sel_union(masks@, sel), chosen_col as int);
                    assert(bit_set(sel_union(masks@, sel), chosen_col as int));
                    lemma_sel_union_bit(masks@, sel, chosen_col as int);
                    let i = choose|i: int|
                        0 <= i < sel.len() && bit_set(
                            masks@[(#[trigger] sel[i]) as int],
                            chosen_col as int,
                        );
                    assert(active@.contains(sel[i]));
                    let p = choose|p: int| 0 <= p < active@.len() && active@[p] == sel[i];
                    assert(masks@[active@[p] as int] & (1u32 << (chosen_col as u32)) == 0);
                    let m = masks@[sel[i] as int];
                    let cu = chosen_col as u32;
                    assert(cu < 32 ==> !(m & (1u32 << cu) == 0 && (m >> cu) & 1u32 == 1u32))
                        by (bit_vector);
                }
            }
        }
        let r: Vec<Vec<usize>> = Vec::new();
        return r;
    }
    let chosen_bit: u32 = 1u32 << chosen_col;
    let mut result: Vec<Vec<usize>> = Vec::new();
    let mut pos: usize = 0;
    while pos < active.len()
        invariant
            chosen_col < 32,
            chosen_bit == 1u32 << chosen_col,
            bit_set(full, chosen_col as int),
            !bit_set(covered, chosen_col as int),
            pos <= active@.len(),
            forall|i: int| 0 <= i < active@.len() ==> (#[trigger] active@[i]) < masks@.len(),
            forall|i: int|
                0 <= i < active@.len() ==> masks@[(#[trigger] active@[i]) as int] & covered == 0,
            active@.no_duplicates(),
            forall|s: int|
                0 <= s < result@.len() ==> sel_covers(masks@, (#[trigger] result@[s])@, covered, full),
            forall|sel: Seq<usize>|
                (#[trigger] covering_from(masks@, active@, sel, covered, full) && exists|
                    i: int,
                    p: int,
                |
                    #[trigger] chosen_witness(masks@, active@, sel, chosen_bit, i, p) && p < pos)
                    ==> result@.len() >= 1,
            forall|s: int|
                0 <= s < result@.len() ==> (#[trigger] result@[s])@.len() >= 1
                    && active@.take(pos as int).contains(result@[s]@[0]) && masks@[result@[s]@[0]
                    as int] & chosen_bit != 0,
            forall|s1: int, s2: int|
                0 <= s1 < s2 < result@.len() ==> (#[trigger] result@[s1])@.to_set() != (
                #[trigger] result@[s2])@.to_set(),
            forall|sel: Seq<usize>|
                (#[trigger] covering_from(masks@, active@, sel, covered, full) && nonzero_rows(
                    masks@,
                    sel,
                ) && exists|i: int, p: int|
                    #[trigger] chosen_witness(masks@, active@, sel, chosen_bit, i, p) && p < pos)
                    ==> appears(result@, sel),
        decreases active@.len() - pos,
    {
        let row = active[pos];
        let row_mask = masks[row];
        if row_mask & chosen_bit != 0 {
            proof {
                assert(row_mask != 0u32) by {
                    let cb = chosen_bit;
                    let rm = row_mask;
                    assert(rm & cb != 0 ==> rm != 0) by (bit_vector);
                }
            }
            let new_covered = covered | row_mask;
            let mut new_active: Vec<usize> = Vec::new();
            let mut pos2: usize = 0;
            while pos2 < active.len()
                invariant
                    pos < active@.len(),
                    pos2 <= active@.len(),
                    row == active@[pos as int],
                    row_mask == masks@[row as int],
                    new_covered == covered | row_mask,
                    row_mask != 0u32,
                    forall|i: int|
                        0 <= i < active@.len() ==> (#[trigger] active@[i]) < masks@.len(),
                    forall|i: int|
                        0 <= i < active@.len() ==> masks@[(#[trigger] active@[i]) as int] & covered
                            == 0,
                    forall|i: int|
                        0 <= i < new_active@.len() ==> (#[trigger] new_active@[i]) < masks@.len(),
                    forall|i: int|
                        0 <= i < new_active@.len() ==> masks@[(#[trigger] new_active@[i]) as int]
                            & new_covered == 0,
                    new_active@.len() <= if pos2 <= pos {
                        pos2 as int
                    } else {
                        pos2 - 1
                    },
                    forall|p3: int|
                        0 <= p3 < pos2 && masks@[(#[trigger] active@[p3]) as int] & row_mask == 0
                            ==> new_active@.contains(active@[p3]),
                    active@.no_duplicates(),
                    new_active@.no_duplicates(),
                    forall|m: int|
                        0 <= m < new_active@.len() ==> active@.take(pos2 as int).contains(
                            #[trigger] new_active@[m],
                        ),
                decreases active@.len() - pos2,
            {
                let r2 = active[pos2];
                let ghost na_pre = new_active@;
                if masks[r2] & row_mask == 0 {
                    proof {
                        lemma_and_or_split(masks@[r2 as int], covered, row_mask);
                        if pos2 == pos {
                            assert(masks@[r2 as int] == row_mask);
                            assert(row_mask & row_mask == 0 ==> row_mask == 0) by (bit_vector);
                            assert(false);
                        }
                        assert(!na_pre.contains(r2)) by {
                            if na_pre.contains(r2) {
                                let m = choose|m: int| 0 <= m < na_pre.len() && na_pre[m] == r2;
                                assert(active@.take(pos2 as int).contains(na_pre[m]));
                                let p3 = choose|p3: int|
                                    0 <= p3 < pos2 && active@.take(pos2 as int)[p3] == r2;
                                assert(active@[p3] == active@[pos2 as int]);
                            }
                        }
                    }
                    new_active.push(r2);
                    proof {
                        assert(new_active@ == na_pre.push(r2));
                        assert(new_active@.no_duplicates()) by {
                            assert forall|k1: int, k2: int|
                                0 <= k1 < new_active@.len() && 0 <= k2 < new_active@.len() && k1
                                    != k2 implies new_active@[k1] != new_active@[k2] by {
                                if k1 < na_pre.len() && k2 < na_pre.len() {
                                    assert(na_pre[k1] != na_pre[k2]);
                                } else if k2 == na_pre.len() {
                                    if new_active@[k1] == r2 {
                                        assert(na_pre[k1] == r2);
                                        assert(na_pre.contains(r2));
                                    }
                                } else {
                                    if new_active@[k2] == r2 {
                                        assert(na_pre[k2] == r2);
                                        assert(na_pre.contains(r2));
                                    }
                                }
                            }
                        }
                    }
                }
                proof {
                    assert forall|m: int| 0 <= m < new_active@.len() implies active@.take(
                        pos2 + 1,
                    ).contains(#[trigger] new_active@[m]) by {
                        if m < na_pre.len() {
                            assert(active@.take(pos2 as int).contains(na_pre[m]));
                            let p3 = choose|p3: int|
                                0 <= p3 < pos2 && active@.take(pos2 as int)[p3] == na_pre[m];
                            assert(active@.take(pos2 + 1)[p3] == new_active@[m]);
                        } else {
                            assert(new_active@[m] == active@[pos2 as int]);
                            assert(active@.take(pos2 + 1)[pos2 as int] == new_active@[m]);
                        }
                    }
                }
                pos2 = pos2 + 1;
            }
            let tails = search_cover(masks, full, &new_active, new_covered);
            let ghost result_pre = result@;
            let mut t: usize = 0;
            while t < tails.len()
                invariant
                    t <= tails@.len(),
                    row < masks@.len(),
                    row_mask == masks@[row as int],
                    new_covered == covered | row_mask,
                    masks@[row as int] & covered == 0,
                    result@.len() == result_pre.len() + t,
                    forall|u: int| 0 <= u < result_pre.len() ==> result@[u] == result_pre[u],
                    forall|u: int|
                        0 <= u < t ==> (#[trigger] result@[result_pre.len() + u])@ == tails@[u]@
                            .insert(0, row),
                    forall|s1: int, s2: int|
                        0 <= s1 < s2 < tails@.len() ==> (#[trigger] tails@[s1])@.to_set() != (
                        #[trigger] tails@[s2])@.to_set(),
                    forall|s: int|
                        0 <= s < result_pre.len() ==> (#[trigger] result_pre[s])@.len() >= 1
                            && active@.take(pos as int).contains(result_pre[s]@[0]) && masks@[
                            result_pre[s]@[0] as int] & chosen_bit != 0,
                    forall|s1: int, s2: int|
                        0 <= s1 < s2 < result_pre.len() ==> (#[trigger] result_pre[s1])@.to_set()
                            != (#[trigger] result_pre[s2])@.to_set(),
                    active@.no_duplicates(),
                    pos < active@.len(),
                    row == active@[pos as int],
                    forall|s: int|
                        0 <= s < tails@.len() ==> sel_covers(
                            masks@,
                            (#[trigger] tails@[s])@,
                            new_covered,
                            full,
                        ),
                    forall|s: int|
                        0 <= s < result@.len() ==> sel_covers(
                            masks@,
                            (#[trigger] result@[s])@,
                            covered,
                            full,
                        ),
                decreases tails@.len() - t,
            {
                let mut sel: Vec<usize> = copy_indices(&tails[t]);
                sel.insert(0, row);
                proof {
                    let tail_sel = tails@[t as int]@;
                    assert(sel@ == tail_sel.insert(0, row));
                    assert(sel@[0] == row);
                    assert(sel@.drop_first() =~= tail_sel);
                    assert(sel_union(masks@, sel@) == row_mask | sel_union(masks@, tail_sel));
                    assert(sel_covers(masks@, sel@, covered, full)) by {
                        assert(sel_in_range(masks@, sel@)) by {
                            assert(forall|i: int|
                                1 <= i < sel@.len() ==> sel@[i] == tail_sel[i - 1]);
                        }
                        assert(covered | sel_union(masks@, sel@) == full) by {
                            lemma_or_assoc(covered, row_mask, sel_union(masks@, tail_sel));
                        }
                        assert(sel_disjoint(masks@, sel@, covered)) by {
                            assert forall|i: int, j: int| 0 <= i < j < sel@.len() implies masks@[(
                                #[trigger] sel@[i]) as int] & masks@[(#[trigger] sel@[j]) as int]
                                == 0 by {
                                if i == 0 {
                                    assert(sel@[j] == tail_sel[j - 1]);
                                    assert(masks@[tail_sel[j - 1] as int] & new_covered == 0);
                                    lemma_and_or_split(
                                        masks@[tail_sel[j - 1] as int],
                                        covered,
                                        row_mask,
                                    );
                                    assert(masks@[sel@[j] as int] & row_mask == 0);
                                    assert(row_mask & masks@[sel@[j] as int] == 0) by {
                                        let x = row_mask;
                                        let y = masks@[sel@[j] as int];
                                        assert(y & x == 0 ==> x & y == 0) by (bit_vector);
                                    }
                                } else {
                                    assert(sel@[i] == tail_sel[i - 1]);
                                    assert(sel@[j] == tail_sel[j - 1]);
                                }
                            }
                            assert forall|i: int| 0 <= i < sel@.len() implies masks@[(
                                #[trigger] sel@[i]) as int] & covered == 0 by {
                                if i == 0 {
                                } else {
                                    assert(sel@[i] == tail_sel[i - 1]);
                                    assert(masks@[tail_sel[i - 1] as int] & new_covered == 0);
                                    lemma_and_or_split(
                                        masks@[tail_sel[i - 1] as int],
                                        covered,
                                        row_mask,
                                    );
                                }
                            }
                        }
                    }
                }
                let ghost result_mid = result@;
                result.push(sel);
                proof {
                    assert(result@ == result_mid.push(sel));
                    assert(result@[result_pre.len() + t]@ == tails@[t as int]@.insert(0, row));
                }
                t = t + 1;
            }
            proof {
                // The branch's new entries all pick this row, which covers
                // the chosen column; an earlier branch's entries pick their
                // own chosen-column row instead, and within the branch the
                // tails pick different rows. So no two entries pick the same
                // rows, and every entry's first row covers the chosen column
                // and sits among the rows seen so far.
                assert forall|s: int| 0 <= s < result@.len() implies (
                #[trigger] result@[s])@.len() >= 1 && active@.take(pos + 1).contains(
                    result@[s]@[0],
                ) && masks@[result@[s]@[0] as int] & chosen_bit != 0 by {
                    if s < result_pre.len() {
                        assert(result@[s] == result_pre[s]);
                        assert(active@.take(pos as int).contains(result_pre[s]@[0]));
                        let p3 = choose|p3: int|
                            0 <= p3 < pos && active@.take(pos as int)[p3] == result_pre[s]@[0];
                        assert(active@.take(pos + 1)[p3] == result@[s]@[0]);
                    } else {
                        let u = s - result_pre.len();
                        assert(result@[result_pre.len() + u]@ == tails@[u]@.insert(0, row));
                        assert(result@[s]@[0] == row);
                        assert(active@.take(pos + 1)[pos as int] == row);
                    }
                }
                assert forall|s1: int, s2: int| 0 <= s1 < s2 < result@.len() implies (
                #[trigger] result@[s1])@.to_set() != (#[trigger] result@[s2])@.to_set() by {
                    if s2 < result_pre.len() {
                        assert(result_pre[s1]@.to_set() != result_pre[s2]@.to_set());
                    } else if s1 < result_pre.len() {
                        // The old entry's first row and this row both cover
                        // the chosen column; were the picked-row sets equal,
                        // the new cover would hold both, yet a cover's rows
                        // are disjoint, so only one of them can cover that
                        // column: the two rows would be one row, against the
                        // uniqueness of the active rows.
                        let u2 = s2 - result_pre.len();
                        assert(result@[result_pre.len() + u2]@ == tails@[u2]@.insert(0, row));
                        assert(result@[s2]@[0] == row);
                        let h1 = result_pre[s1]@[0];
                        assert(masks@[h1 as int] & chosen_bit != 0);
                        assert(active@.take(pos as int).contains(h1));
                        let p3 = choose|p3: int| 0 <= p3 < pos && active@.take(pos as int)[p3]
                            == h1;
                        if result@[s1]@.to_set() == result@[s2]@.to_set() {
                            assert(result@[s1]@.to_set().contains(h1)) by {
                                assert(result@[s1]@.contains(h1));
                            }
                            assert(result@[s2]@.contains(h1));
                            let j1 = choose|j1: int|
                                0 <= j1 < result@[s2]@.len() && result@[s2]@[j1] == h1;
                            assert(result@[s2]@.to_set().contains(row)) by {
                                assert(result@[s2]@.contains(row));
                            }
                            if h1 != row {
                                assert(j1 != 0);
                                assert(sel_covers(masks@, result@[s2]@, covered, full));
                                assert(masks@[result@[s2]@[0] as int] & masks@[result@[s2]@[j1]
                                    as int] == 0);
                                let x = masks@[row as int];
                                let y = masks@[h1 as int];
                                let cb = chosen_bit;
                                let cc = chosen_col as u32;
                                assert(cb == 1u32 << cc && cc < 32 && x & cb != 0 && y & cb != 0
                                    ==> x & y != 0) by (bit_vector);
                            } else {
                                assert(active@[p3] == active@[pos as int]);
                            }
                        }
                    } else {
                        // Two entries of this branch: equal picked-row sets
                        // would force their tails to pick the same rows,
                        // which the recursion rules out; this row itself is
                        // in neither tail, its mask overlapping itself.
                        let t1 = s1 - result_pre.len();
                        let t2 = s2 - result_pre.len();
                        assert(result@[result_pre.len() + t1]@ == tails@[t1]@.insert(0, row));
                        assert(result@[result_pre.len() + t2]@ == tails@[t2]@.insert(0, row));
                        assert(tails@[t1]@.to_set() != tails@[t2]@.to_set());
                        lemma_insert_to_set(tails@[t1]@, row);
                        lemma_insert_to_set(tails@[t2]@, row);
                        assert forall|t3: int| 0 <= t3 < tails@.len() implies !(
                        #[trigger] tails@[t3])@.to_set().contains(row) by {
                            if tails@[t3]@.contains(row) {
                                let j = choose|j: int|
                                    0 <= j < tails@[t3]@.len() && tails@[t3]@[j] == row;
                                assert(sel_covers(masks@, tails@[t3]@, new_covered, full));
                                assert(masks@[tails@[t3]@[j] as int] & new_covered == 0);
                                lemma_and_or_split(masks@[row as int], covered, row_mask);
                                assert(row_mask & row_mask == 0 ==> row_mask == 0)
                                    by (bit_vector);
                            }
                        }
                        if result@[s1]@.to_set() == result@[s2]@.to_set() {
                            assert(tails@[t1]@.to_set() =~= tails@[t1]@.to_set().insert(
                                row,
                            ).remove(row));
                            assert(tails@[t2]@.to_set() =~= tails@[t2]@.to_set().insert(
                                row,
                            ).remove(row));
                        }
                    }
                }
                assert forall|sel: Seq<usize>|
                    (#[trigger] covering_from(masks@, active@, sel, covered, full)
                        && nonzero_rows(masks@, sel) && exists|i: int, p: int|
                        #[trigger] chosen_witness(masks@, active@, sel, chosen_bit, i, p) && p < pos
                            + 1) implies appears(result@, sel) by {
                    let (i, p): (int, int) = choose|i: int, p: int|
                        #[trigger] chosen_witness(masks@, active@, sel, chosen_bit, i, p) && p < pos
                            + 1;
                    if p < pos {
                        assert(chosen_witness(masks@, active@, sel, chosen_bit, i, p) && p < pos);
                        assert(appears(result_pre, sel));
                        let s0 = choose|s0: int|
                            0 <= s0 < result_pre.len() && (#[trigger] result_pre[s0])@.to_set()
                                == sel.to_set();
                        assert(result@[s0] == result_pre[s0]);
                        assert(appears(result@, sel));
                    } else {
                        // p == pos: this branch's recursion found the reduced
                        // cover, and its entry, with this row put back in
                        // front, picks exactly the selection's rows.
                        assert(sel[i] == row);
                        lemma_remove_chosen(masks@, active@, new_active@, sel, covered, full, i);
                        let sel2 = sel.take(i) + sel.skip(i + 1);
                        assert(nonzero_rows(masks@, sel2)) by {
                            assert(forall|j: int|
                                0 <= j < sel2.len() ==> sel2[j] == (if j < i {
                                    sel[j]
                                } else {
                                    sel[j + 1]
                                }));
                        }
                        assert(appears(tails@, sel2));
                        let u = choose|u: int|
                            0 <= u < tails@.len() && (#[trigger] tails@[u])@.to_set()
                                == sel2.to_set();
                        assert(result@[result_pre.len() + u]@ == tails@[u]@.insert(0, row));
                        lemma_insert_to_set(tails@[u]@, row);
                        lemma_remove_to_set(sel, i);
                        assert(result@[result_pre.len() + u]@.to_set() == sel.to_set());
                        assert(appears(result@, sel));
                    }
                }
                if tails@.len() == 0 {
                    // This branch found nothing, so by the recursive call's
                    // completeness no selection from here chooses this row
                    // for the chosen column; the chosen-row witness of any
                    // covering selection must lie before this position.
                    assert forall|sel: Seq<usize>|
                        (#[trigger] covering_from(masks@, active@, sel, covered, full) && exists|
                            i: int,
                            p: int,
                        |
                            #[trigger] chosen_witness(masks@, active@, sel, chosen_bit, i, p) && p
                                < pos + 1) implies result@.len() >= 1 by {
                        let (i, p): (int, int) = choose|i: int, p: int|
                            #[trigger] chosen_witness(masks@, active@, sel, chosen_bit, i, p) && p
                                < pos + 1;
                        if p < pos {
                            assert(chosen_witness(masks@, active@, sel, chosen_bit, i, p) && p
                                < pos);
                        } else {
                            // p == pos: the witness row is this row; its
                            // removal would be a cover of the reduced state,
                            // which the empty recursion result rules out.
                            assert(sel[i] == row);
                            lemma_remove_chosen(masks@, active@, new_active@, sel, covered, full, i);
                            assert(false);
                        }
                    }
                                } else {
                    assert(result@.len() >= 1);
                }
            }
        } else {
            proof {
                assert forall|s: int| 0 <= s < result@.len() implies (
                #[trigger] result@[s])@.len() >= 1 && active@.take(pos + 1).contains(
                    result@[s]@[0],
                ) && masks@[result@[s]@[0] as int] & chosen_bit != 0 by {
                    assert(active@.take(pos as int).contains(result@[s]@[0]));
                    let p3 = choose|p3: int|
                        0 <= p3 < pos && active@.take(pos as int)[p3] == result@[s]@[0];
                    assert(active@.take(pos + 1)[p3] == result@[s]@[0]);
                }
                // A row without the chosen column cannot be any covering
                // selection's chosen-column witness at this position.
                assert forall|sel: Seq<usize>|
                    (#[trigger] covering_from(masks@, active@, sel, covered, full) && exists|
                        i: int,
                        p: int,
                    |
                        #[trigger] chosen_witness(masks@, active@, sel, chosen_bit, i, p) && p < pos
                            + 1) implies result@.len() >= 1 by {
                    let (i, p): (int, int) = choose|i: int, p: int|
                        #[trigger] chosen_witness(masks@, active@, sel, chosen_bit, i, p) && p < pos
                            + 1;
                    if p < pos {
                        assert(chosen_witness(masks@, active@, sel, chosen_bit, i, p) && p < pos);
                    } else {
                        assert(sel[i] == row);
                        assert(masks@[row as int] & chosen_bit != 0);
                        assert(false);
                    }
                }
                assert forall|sel: Seq<usize>|
                    (#[trigger] covering_from(masks@, active@, sel, covered, full)
                        && nonzero_rows(masks@, sel) && exists|i: int, p: int|
                        #[trigger] chosen_witness(masks@, active@, sel, chosen_bit, i, p) && p < pos
                            + 1) implies appears(result@, sel) by {
                    let (i, p): (int, int) = choose|i: int, p: int|
                        #[trigger] chosen_witness(masks@, active@, sel, chosen_bit, i, p) && p < pos
                            + 1;
                    if p < pos {
                        assert(chosen_witness(masks@, active@, sel, chosen_bit, i, p) && p < pos);
                    } else {
                        assert(sel[i] == row);
                        assert(masks@[row as int] & chosen_bit != 0);
                        assert(false);
                    }
                }
            }
        }
        pos = pos + 1;
    }
    proof {
        // Any covering selection must pick some row for the chosen column,
        // and that row stands somewhere among the active rows.
        assert forall|sel: Seq<usize>| #[trigger]
            covering_from(masks@, active@, sel, covered, full) implies result@.len() >= 1
            && (nonzero_rows(masks@, sel) ==> appears(result@, sel)) by {
            lemma_bit_or(covered, sel_union(masks@, sel), chosen_col as int);
            assert(bit_set(sel_union(masks@, sel), chosen_col as int));
            lemma_sel_union_bit(masks@, sel, chosen_col as int);
            let i = choose|i: int|
                0 <= i < sel.len() && bit_set(
                    masks@[(#[trigger] sel[i]) as int],
                    chosen_col as int,
                );
            assert(active@.contains(sel[i]));
            let p = choose|p: int| 0 <= p < active@.len() && active@[p] == sel[i];
            let m = masks@[sel[i] as int];
            let cu = chosen_col as u32;
            assert(cu < 32 ==> ((m >> cu) & 1u32 == 1u32 ==> m & (1u32 << cu) != 0))
                by (bit_vector);
            assert(chosen_witness(masks@, active@, sel, chosen_bit, i, p) && p < active@.len());
        }
    }
    result
}

/// Copies a row-index list.
fn copy_indices(v: &Vec<usize>) -> (r: Vec<usize>)
    ensures
        r@ == v@,
{
    let mut r: Vec<usize> = Vec::new();
    let mut k: usize = 0;
    while k < v.len()
        invariant
            k <= v@.len(),
            r@ == v@.take(k as int),
        decreases v@.len() - k,
    {
        r.push(v[k]);
        proof {
            assert(r@ =~= v@.take(k + 1));
        }
        k = k + 1;
    }
    proof {
        assert(v@.take(v@.len() as int) =~= v@);
    }
    r
}

/// Solves an exact-cover instance given as bitmask rows over `n_elements`
/// columns: every returned selection picks pairwise disjoint rows whose
/// union is the full column set, each row named by its index.
pub fn solve_cover(masks: &Vec<u32>, n_elements: usize) -> (r: Vec<Vec<usize>>)
    requires
        n_elements <= 32,
    ensures
        forall|s: int|
            0 <= s < r@.len() ==> sel_covers(
                masks@,
                (#[trigger] r@[s])@,
                0u32,
                mask_all(n_elements as nat),
            ),
        r@.len() == 0 ==> forall|sel: Seq<usize>|
            !sel_covers(masks@, sel, 0u32, mask_all(n_elements as nat)),
        forall|s1: int, s2: int|
            0 <= s1 < s2 < r@.len() ==> (#[trigger] r@[s1])@.to_set() != (
            #[trigger] r@[s2])@.to_set(),
        forall|sel: Seq<usize>|
            (#[trigger] sel_covers(masks@, sel, 0u32, mask_all(n_elements as nat))
                && nonzero_rows(masks@, sel)) ==> appears(r@, sel),
{
    let mut active: Vec<usize> = Vec::new();
    let mut k: usize = 0;
    while k < masks.len()
        invariant
            k <= masks@.len(),
            active@.len() == k,
            forall|i: int| 0 <= i < k ==> (#[trigger] active@[i]) == i as usize,
        decreases masks@.len() - k,
    {
        active.push(k);
        k = k + 1;
    }
    proof {
        assert(active@.no_duplicates()) by {
            assert forall|k1: int, k2: int|
                0 <= k1 < active@.len() && 0 <= k2 < active@.len() && k1 != k2
                implies active@[k1] != active@[k2] by {
                assert(active@[k1] == k1 as usize && active@[k2] == k2 as usize);
            }
        }
        let nu = n_elements as u64;
        assert(nu <= 32 ==> (1u64 << nu) >= 1 && (1u64 << nu) - 1 <= 0xffff_ffffu64)
            by (bit_vector);
        assert forall|i: int| 0 <= i < active@.len() implies masks@[(#[trigger] active@[i]) as int]
            & 0u32 == 0 by {
            lemma_or_zero(masks@[active@[i] as int]);
        }
    }
    let full_wide: u64 = (1u64 << (n_elements as u64)) - 1;
    let full: u32 = full_wide as u32;
    proof {
        assert(full == mask_all(n_elements as nat));
    }
    let r = search_cover(masks, full, &active, 0);
    proof {
        assert forall|sel: Seq<usize>| #[trigger] sel_covers(
            masks@,
            sel,
            0u32,
            mask_all(n_elements as nat),
        ) implies covering_from(masks@, active@, sel, 0u32, full) by {
            assert forall|i: int| 0 <= i < sel.len() implies active@.contains(
                #[trigger] sel[i],
            ) by {
                assert(active@[sel[i] as int] == sel[i]);
            }
        }
    }
    r
}

/// `m` marks exactly the universe positions whose element the subset holds.
pub open spec fn subset_mask_ok(universe: Seq<u8>, subset: Seq<u8>, m: u32) -> bool {
    forall|b: int|
        0 <= b < 32 ==> (#[trigger] bit_set(m, b) <==> (b < universe.len() && subset.contains(
            universe[b],
        )))
}

/// Turns element subsets into bitmask rows over the universe's positions.
pub fn masks_from_subsets(universe: &Vec<u8>, subsets: &Vec<Vec<u8>>) -> (r: Vec<u32>)
    requires
        universe@.len() <= 32,
    ensures
        r@.len() == subsets@.len(),
        forall|k: int|
            0 <= k < subsets@.len() ==> subset_mask_ok(universe@, subsets@[k]@, #[trigger] r@[k]),
{
    let mut r: Vec<u32> = Vec::new();
    let mut k: usize = 0;
    while k < subsets.len()
        invariant
            universe@.len() <= 32,
            k <= subsets@.len(),
            r@.len() == k,
            forall|k2: int|
                0 <= k2 < k ==> subset_mask_ok(universe@, subsets@[k2]@, #[trigger] r@[k2]),
        decreases subsets@.len() - k,
    {
        let ref subset = subsets[k];
        let mut m: u32 = 0;
        let mut b: usize = 0;
        proof {
            assert forall|b2: int| 0 <= b2 < 32 implies (#[trigger] bit_set(m, b2) <==> (b2 < 0
                && subset@.contains(universe@[b2]))) by {
                let bu = b2 as u32;
                assert(!((0u32 >> bu) & 1u32 == 1u32)) by (bit_vector);
            }
        }
        while b < universe.len()
            invariant
                universe@.len() <= 32,
                k < subsets@.len(),
                subset == subsets@[k as int],
                b <= universe@.len(),
                forall|b2: int|
                    0 <= b2 < 32 ==> (#[trigger] bit_set(m, b2) <==> (b2 < b && subset@.contains(
                        universe@[b2],
                    ))),
            decreases universe@.len() - b,
        {
            let mut found = false;
            let mut i: usize = 0;
            while i < subset.len()
                invariant
                    i <= subset@.len(),
                    found == exists|i2: int|
                        0 <= i2 < i && #[trigger] subset@[i2] == universe@[b as int],
                    b < universe@.len(),
                    subset == subsets@[k as int],
                decreases subset@.len() - i,
            {
                if subset[i] == universe[b] {
                    found = true;
                }
                i = i + 1;
            }
            proof {
                assert(found == subset@.contains(universe@[b as int]));
            }
            if found {
                let ghost m_pre = m;
                m = m | (1u32 << b);
                proof {
                    assert forall|b2: int| 0 <= b2 < 32 implies (#[trigger] bit_set(m, b2) <==> (
                    b2 < b + 1 && subset@.contains(universe@[b2]))) by {
                        let bu = b as u32;
                        let b2u = b2 as u32;
                        assert(bu < 32 && b2u < 32 ==> (((m_pre | (1u32 << bu)) >> b2u) & 1u32
                            == 1u32) == (((m_pre >> b2u) & 1u32 == 1u32) || b2u == bu))
                            by (bit_vector);
                        assert(bit_set(m_pre, b2) == (b2 < b && subset@.contains(universe@[b2])));
                        if b2 == b as int {
                            assert(subset@.contains(universe@[b2]));
                        }
                    }
                }
            } else {
                proof {
                    assert forall|b2: int| 0 <= b2 < 32 implies (#[trigger] bit_set(m, b2) <==> (
                    b2 < b + 1 && subset@.contains(universe@[b2]))) by {
                        if b2 == b as int {
                            assert(!subset@.contains(universe@[b2]));
                        }
                    }
                }
            }
            b = b + 1;
        }
        r.push(m);
        k = k + 1;
    }
    r
}

/// The selection, read over the subsets themselves: every picked index is a
/// subset, every universe element lies in some picked subset, and no element
/// lies in two of them.
pub open spec fn covers_exactly(universe: Seq<u8>, subsets: Seq<Vec<u8>>, sel: Seq<usize>) -> bool {
    &&& forall|i: int| 0 <= i < sel.len() ==> (#[trigger] sel[i]) < subsets.len()
    &&& forall|b: int|
        0 <= b < universe.len() ==> exists|i: int|
            0 <= i < sel.len() && (#[trigger] subsets[sel[i] as int])@.contains(
                #[trigger] universe[b],
            )
    &&& forall|i: int, j: int, b: int|
        #![trigger sel[i], sel[j], universe[b]]
        0 <= i < j < sel.len() && 0 <= b < universe.len() ==> !(subsets[sel[i] as int]@.contains(
            universe[b],
        ) && subsets[sel[j] as int]@.contains(universe[b]))
}

proof fn lemma_sel_union_bit(masks: Seq<u32>, sel: Seq<usize>, b: int)
    requires
        sel_in_range(masks, sel),
        0 <= b < 32,
    ensures
        bit_set(sel_union(masks, sel), b) <==> exists|i: int|
            0 <= i < sel.len() && bit_set(masks[(#[trigger] sel[i]) as int], b),
    decreases sel.len(),
{
    if sel.len() == 0 {
        let bu = b as u32;
        assert(!((0u32 >> bu) & 1u32 == 1u32)) by (bit_vector);
    } else {
        let rest = sel.drop_first();
        assert(sel_in_range(masks, rest)) by {
            assert(forall|i: int| 0 <= i < rest.len() ==> rest[i] == sel[i + 1]);
        }
        lemma_sel_union_bit(masks, rest, b);
        let x = masks[sel[0] as int];
        let y = sel_union(masks, rest);
        let bu = b as u32;
        assert((((x | y) >> bu) & 1u32 == 1u32) == (((x >> bu) & 1u32 == 1u32) || ((y >> bu)
            & 1u32 == 1u32))) by (bit_vector);
        if bit_set(sel_union(masks, sel), b) {
            if bit_set(x, b) {
                assert(bit_set(masks[sel[0] as int], b));
            } else {
                let i = choose|i: int|
                    0 <= i < rest.len() && bit_set(masks[(#[trigger] rest[i]) as int], b);
                assert(rest[i] == sel[i + 1]);
                assert(bit_set(masks[sel[i + 1] as int], b));
            }
        }
        if exists|i: int| 0 <= i < sel.len() && bit_set(masks[(#[trigger] sel[i]) as int], b) {
            let i = choose|i: int|
                0 <= i < sel.len() && bit_set(masks[(#[trigger] sel[i]) as int], b);
            if i == 0 {
            } else {
                assert(rest[i - 1] == sel[i]);
                assert(bit_set(masks[rest[i - 1] as int], b));
            }
        }
    }
}

proof fn lemma_masks_to_cover(
    universe: Seq<u8>,
    subsets: Seq<Vec<u8>>,
    masks: Seq<u32>,
    sel: Seq<usize>,
)
    requires
        universe.len() <= 32,
        masks.len() == subsets.len(),
        forall|k: int|
            0 <= k < subsets.len() ==> subset_mask_ok(universe, subsets[k]@, #[trigger] masks[k]),
        sel_covers(masks, sel, 0u32, mask_all(universe.len())),
    ensures
        covers_exactly(universe, subsets, sel),
{
    lemma_or_zero(sel_union(masks, sel));
    assert(sel_union(masks, sel) == mask_all(universe.len()));
    assert forall|b: int| 0 <= b < universe.len() implies exists|i: int|
        0 <= i < sel.len() && (#[trigger] subsets[sel[i] as int])@.contains(
            #[trigger] universe[b],
        ) by {
        crate::solver::lemma_bit_mask_all(universe.len(), b);
        assert(bit_set(sel_union(masks, sel), b));
        lemma_sel_union_bit(masks, sel, b);
        let i = choose|i: int| 0 <= i < sel.len() && bit_set(masks[(#[trigger] sel[i]) as int], b);
        assert(subset_mask_ok(universe, subsets[sel[i] as int]@, masks[sel[i] as int]));
        assert(subsets[sel[i] as int]@.contains(universe[b]));
    }
    assert forall|i: int, j: int, b: int|
        #![trigger sel[i], sel[j], universe[b]]
        0 <= i < j < sel.len() && 0 <= b < universe.len() implies !(subsets[sel[i] as int]@
        .contains(universe[b]) && subsets[sel[j] as int]@.contains(universe[b])) by {
        if subsets[sel[i] as int]@.contains(universe[b]) && subsets[sel[j] as int]@.contains(
            universe[b],
        ) {
            assert(bit_set(masks[sel[i] as int], b));
            assert(bit_set(masks[sel[j] as int], b));
            assert(masks[sel[i] as int] & masks[sel[j] as int] == 0);
            let x = masks[sel[i] as int];
            let y = masks[sel[j] as int];
            let bu = b as u32;
            assert(!(x & y == 0 && ((x >> bu) & 1u32 == 1u32) && ((y >> bu) & 1u32 == 1u32)))
                by (bit_vector);
        }
    }
}

proof fn lemma_bit_and(x: u32, y: u32, i: int)
    requires
        0 <= i < 32,
    ensures
        bit_set(x & y, i) == (bit_set(x, i) && bit_set(y, i)),
{
    let iu = i as u32;
    assert((((x & y) >> iu) & 1u32 == 1u32) == (((x >> iu) & 1u32 == 1u32) && ((y >> iu) & 1u32
        == 1u32))) by (bit_vector);
}

/// Every picked subset holds at least one universe element. A subset
/// without one can pad a cover while covering nothing, and the search never
/// picks such a subset.
pub open spec fn contributing_rows(
    universe: Seq<u8>,
    subsets: Seq<Vec<u8>>,
    sel: Seq<usize>,
) -> bool {
    forall|i: int|
        0 <= i < sel.len() ==> exists|b: int|
            0 <= b < universe.len() && (#[trigger] subsets[(#[trigger] sel[i]) as int])@.contains(
                universe[b],
            )
}

/// A selection that covers the universe element-wise also covers it
/// mask-wise, over the masks derived from the subsets.
proof fn lemma_cover_to_masks(
    universe: Seq<u8>,
    subsets: Seq<Vec<u8>>,
    masks: Seq<u32>,
    sel: Seq<usize>,
)
    requires
        universe.len() <= 32,
        masks.len() == subsets.len(),
        forall|k: int|
            0 <= k < subsets.len() ==> subset_mask_ok(universe, subsets[k]@, #[trigger] masks[k]),
        covers_exactly(universe, subsets, sel),
    ensures
        sel_covers(masks, sel, 0u32, mask_all(universe.len())),
{
    assert(sel_in_range(masks, sel));
    assert(sel_disjoint(masks, sel, 0u32)) by {
        assert forall|i: int, j: int| 0 <= i < j < sel.len() implies masks[(
        #[trigger] sel[i]) as int] & masks[(#[trigger] sel[j]) as int] == 0 by {
            let x = masks[sel[i] as int];
            let y = masks[sel[j] as int];
            assert forall|b: int| 0 <= b < 32 implies #[trigger] bit_set(x & y, b) == bit_set(
                0u32,
                b,
            ) by {
                lemma_bit_and(x, y, b);
                let bu = b as u32;
                assert(!((0u32 >> bu) & 1u32 == 1u32)) by (bit_vector);
                if bit_set(x, b) && bit_set(y, b) {
                    assert(subsets[sel[i] as int]@.contains(universe[b]));
                    assert(subsets[sel[j] as int]@.contains(universe[b]));
                }
            }
            lemma_u32_eq_from_bits(x & y, 0u32);
        }
        assert forall|i: int| 0 <= i < sel.len() implies masks[(#[trigger] sel[i]) as int] & 0u32
            == 0 by {
            lemma_or_zero(masks[sel[i] as int]);
        }
    }
    assert forall|b: int| 0 <= b < 32 implies #[trigger] bit_set(sel_union(masks, sel), b)
        == bit_set(mask_all(universe.len()), b) by {
        lemma_sel_union_bit(masks, sel, b);
        crate::solver::lemma_bit_mask_all(universe.len(), b);
        if b < universe.len() {
            let i = choose|i: int|
                0 <= i < sel.len() && (#[trigger] subsets[sel[i] as int])@.contains(universe[b]);
            assert(bit_set(masks[sel[i] as int], b));
        } else {
            if bit_set(sel_union(masks, sel), b) {
                let i = choose|i: int|
                    0 <= i < sel.len() && bit_set(masks[(#[trigger] sel[i]) as int], b);
                assert(subset_mask_ok(universe, subsets[sel[i] as int]@, masks[sel[i] as int]));
            }
        }
    }
    lemma_u32_eq_from_bits(sel_union(masks, sel), mask_all(universe.len()));
    lemma_or_zero(sel_union(masks, sel));
}

/// A contributing subset's mask marks at least one column.
proof fn lemma_contributing_nonzero(
    universe: Seq<u8>,
    subsets: Seq<Vec<u8>>,
    masks: Seq<u32>,
    sel: Seq<usize>,
)
    requires
        universe.len() <= 32,
        masks.len() == subsets.len(),
        forall|k: int|
            0 <= k < subsets.len() ==> subset_mask_ok(universe, subsets[k]@, #[trigger] masks[k]),
        sel_in_range(masks, sel),
        contributing_rows(universe, subsets, sel),
    ensures
        nonzero_rows(masks, sel),
{
    assert forall|i: int| 0 <= i < sel.len() implies masks[(#[trigger] sel[i]) as int] != 0 by {
        let b = choose|b: int|
            0 <= b < universe.len() && (#[trigger] subsets[sel[i] as int])@.contains(universe[b]);
        assert(subset_mask_ok(universe, subsets[sel[i] as int]@, masks[sel[i] as int]));
        assert(bit_set(masks[sel[i] as int], b));
        let m = masks[sel[i] as int];
        let bu = b as u32;
        assert((m >> bu) & 1u32 == 1u32 ==> m != 0) by (bit_vector);
    }
}

impl Universe<u8> {
    /// Solves the exact-cover instance whose subsets are given as element
    /// lists: every returned selection, its rows named by subset index,
    /// covers each universe position exactly once, and `None` comes back
    /// only when no selection at all does. An instance with no subsets or
    /// no elements has the one empty cover.
    pub fn solve(&self, subsets: &Vec<Vec<u8>>) -> (r: Option<Solution<usize>>)
        requires
            self.elements@.len() <= 32,
        ensures
            match r {
                Some(sol) => {
                    if subsets@.len() == 0 || self.elements@.len() == 0 {
                        sol.solutions@.len() == 1 && sol.solutions@[0]@.len() == 0
                    } else {
                        &&& sol.solutions@.len() >= 1
                        &&& forall|s: int|
                            0 <= s < sol.solutions@.len() ==> covers_exactly(
                                self.elements@,
                                subsets@,
                                (#[trigger] sol.solutions@[s])@,
                            )
                        &&& forall|s1: int, s2: int|
                            0 <= s1 < s2 < sol.solutions@.len() ==> (
                            #[trigger] sol.solutions@[s1])@.to_set() != (
                            #[trigger] sol.solutions@[s2])@.to_set()
                        &&& forall|sel: Seq<usize>|
                            (#[trigger] covers_exactly(self.elements@, subsets@, sel)
                                && contributing_rows(self.elements@, subsets@, sel)) ==> exists|
                                s: int,
                            |
                                0 <= s < sol.solutions@.len() && (
                                #[trigger] sol.solutions@[s])@.to_set() == sel.to_set()
                    }
                },
                None => {
                    &&& subsets@.len() != 0
                    &&& self.elements@.len() != 0
                    &&& forall|sel: Seq<usize>|
                        !covers_exactly(self.elements@, subsets@, sel)
                },
            },
    {
        if subsets.len() == 0 || self.elements.len() == 0 {
            let mut sols: Vec<Vec<usize>> = Vec::new();
            let empty_sel: Vec<usize> = Vec::new();
            sols.push(empty_sel);
            let result = Solution::new(sols);
            proof {
                assert(result.solutions@.len() == 1);
                assert(result.solutions@[0]@.len() == 0);
            }
            return Some(result);
        }
        let masks = masks_from_subsets(&self.elements, subsets);
        let found = solve_cover(&masks, self.elements.len());
        if found.len() == 0 {
            proof {
                assert forall|sel: Seq<usize>| !covers_exactly(
                    self.elements@,
                    subsets@,
                    sel,
                ) by {
                    if covers_exactly(self.elements@, subsets@, sel) {
                        lemma_cover_to_masks(self.elements@, subsets@, masks@, sel);
                        assert(sel_covers(masks@, sel, 0u32, mask_all(self.elements@.len())));
                    }
                }
            }
            None
        } else {
            let result = Solution::new(found);
            proof {
                assert forall|s: int| 0 <= s < result.solutions@.len() implies covers_exactly(
                    self.elements@,
                    subsets@,
                    (#[trigger] result.solutions@[s])@,
                ) by {
                    lemma_masks_to_cover(self.elements@, subsets@, masks@, result.solutions@[s]@);
                }
                assert forall|sel: Seq<usize>|
                    (#[trigger] covers_exactly(self.elements@, subsets@, sel)
                        && contributing_rows(self.elements@, subsets@, sel)) implies exists|
                    s: int,
                |
                    0 <= s < result.solutions@.len() && (
                    #[trigger] result.solutions@[s])@.to_set() == sel.to_set() by {
                    lemma_cover_to_masks(self.elements@, subsets@, masks@, sel);
                    lemma_contributing_nonzero(self.elements@, subsets@, masks@, sel);
                    assert(appears(found@, sel));
                    let s = choose|s: int|
                        0 <= s < found@.len() && (#[trigger] found@[s])@.to_set() == sel.to_set();
                    assert(result.solutions@[s]@.to_set() == sel.to_set());
                }
            }
            Some(result)
        }
    }
}

} // verus!
