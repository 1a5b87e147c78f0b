//! The edit distance between two sequences of code points, stated as the
//! classic table of prefix distances, and the facts about neighbouring cells
//! that the automata proofs lean on.

use crate::distance::{make_distance, saturated, Distance};
use vstd::prelude::*;

verus! {

/// The lesser of two numbers.
pub open spec fn min2(x: nat, y: nat) -> nat {
    if x <= y {
        x
    } else {
        y
    }
}

/// The least of three numbers.
pub open spec fn min3(x: nat, y: nat, z: nat) -> nat {
    min2(x, min2(y, z))
}

/// The `i`-th unit of `a` and the `j`-th unit of `b` (counted from one) exist
/// and are equal.
pub open spec fn matches_at(a: Seq<char>, b: Seq<char>, i: nat, j: nat) -> bool {
    1 <= i <= a.len() && 1 <= j <= b.len() && a[i - 1] == b[j - 1]
}

/// The last two units of `a[..i]` are the last two units of `b[..j]` in the
/// opposite order.
pub open spec fn swapped_at(a: Seq<char>, b: Seq<char>, i: nat, j: nat) -> bool {
    2 <= i <= a.len() && 2 <= j <= b.len() && a[i - 1] == b[j - 2] && a[i - 2] == b[j - 1]
}

/// Cell `(i, j)` of the distance table: the least number of insertions,
/// deletions and substitutions (and, with `transposition`, swaps of two
/// adjacent units that are not edited again) that turn `a[..i]` into `b[..j]`.
/// Positions of `a` past its end hold units that equal nothing.
pub open spec fn cell(a: Seq<char>, b: Seq<char>, transposition: bool, i: nat, j: nat) -> nat
    decreases i + j,
{
    if i == 0 {
        j
    } else if j == 0 {
        i
    } else {
        let keep = cell(a, b, transposition, (i - 1) as nat, (j - 1) as nat) + if matches_at(
            a,
            b,
            i,
            j,
        ) {
            0nat
        } else {
            1nat
        };
        let best = min3(
            cell(a, b, transposition, (i - 1) as nat, j) + 1,
            cell(a, b, transposition, i, (j - 1) as nat) + 1,
            keep,
        );
        if transposition && swapped_at(a, b, i, j) {
            min2(best, cell(a, b, transposition, (i - 2) as nat, (j - 2) as nat) + 1)
        } else {
            best
        }
    }
}

/// The edit distance between `a` and `b`: Levenshtein's, or with
/// `transposition` the restricted Damerau-Levenshtein distance.
pub open spec fn edit_distance(a: Seq<char>, b: Seq<char>, transposition: bool) -> nat {
    cell(a, b, transposition, a.len(), b.len())
}

/// A cell is at most each of its candidates.
pub proof fn lemma_cell_upper(a: Seq<char>, b: Seq<char>, t: bool, i: nat, j: nat)
    requires
        i >= 1,
        j >= 1,
    ensures
        cell(a, b, t, i, j) <= cell(a, b, t, (i - 1) as nat, j) + 1,
        cell(a, b, t, i, j) <= cell(a, b, t, i, (j - 1) as nat) + 1,
        cell(a, b, t, i, j) <= cell(a, b, t, (i - 1) as nat, (j - 1) as nat) + 1,
        matches_at(a, b, i, j) ==> cell(a, b, t, i, j) <= cell(
            a,
            b,
            t,
            (i - 1) as nat,
            (j - 1) as nat,
        ),
        t && swapped_at(a, b, i, j) ==> cell(a, b, t, i, j) <= cell(
            a,
            b,
            t,
            (i - 2) as nat,
            (j - 2) as nat,
        ) + 1,
{
}

/// A cell equals one of its candidates.
pub proof fn lemma_cell_witness(a: Seq<char>, b: Seq<char>, t: bool, i: nat, j: nat)
    requires
        i >= 1,
        j >= 1,
    ensures
        ({
            ||| cell(a, b, t, i, j) == cell(a, b, t, (i - 1) as nat, j) + 1
            ||| cell(a, b, t, i, j) == cell(a, b, t, i, (j - 1) as nat) + 1
            ||| (!matches_at(a, b, i, j) && cell(a, b, t, i, j) == cell(
                a,
                b,
                t,
                (i - 1) as nat,
                (j - 1) as nat,
            ) + 1)
            ||| (matches_at(a, b, i, j) && cell(a, b, t, i, j) == cell(
                a,
                b,
                t,
                (i - 1) as nat,
                (j - 1) as nat,
            ))
            ||| (t && swapped_at(a, b, i, j) && cell(a, b, t, i, j) == cell(
                a,
                b,
                t,
                (i - 2) as nat,
                (j - 2) as nat,
            ) + 1)
        }),
{
}

/// One more unit of `a` costs at most one more edit.
pub proof fn lemma_cell_next_row(a: Seq<char>, b: Seq<char>, t: bool, i: nat, j: nat)
    ensures
        cell(a, b, t, i + 1, j) <= cell(a, b, t, i, j) + 1,
{
    if j > 0 {
        lemma_cell_upper(a, b, t, i + 1, j);
    }
}

/// One more unit of `b` costs at most one more edit.
pub proof fn lemma_cell_next_column(a: Seq<char>, b: Seq<char>, t: bool, i: nat, j: nat)
    ensures
        cell(a, b, t, i, j + 1) <= cell(a, b, t, i, j) + 1,
{
    if i > 0 {
        lemma_cell_upper(a, b, t, i, j + 1);
    }
}

/// One unit less of `a` costs at most one more edit.
pub proof fn lemma_cell_previous_row(a: Seq<char>, b: Seq<char>, t: bool, i: nat, j: nat)
    ensures
        cell(a, b, t, i, j) <= cell(a, b, t, i + 1, j) + 1,
    decreases i + j,
{
    if j > 0 {
        let j1 = (j - 1) as nat;
        lemma_cell_witness(a, b, t, i + 1, j);
        lemma_cell_previous_row(a, b, t, i, j1);
        lemma_cell_next_column(a, b, t, i, j1);
        if t && swapped_at(a, b, i + 1, j) {
            let i1 = (i - 1) as nat;
            lemma_cell_upper(a, b, t, i, j);
            lemma_cell_next_column(a, b, t, i1, (j - 2) as nat);
        }
    }
}

/// One unit less of `b` costs at most one more edit.
pub proof fn lemma_cell_previous_column(a: Seq<char>, b: Seq<char>, t: bool, i: nat, j: nat)
    ensures
        cell(a, b, t, i, j) <= cell(a, b, t, i, j + 1) + 1,
    decreases i + j,
{
    if i > 0 {
        let i1 = (i - 1) as nat;
        lemma_cell_witness(a, b, t, i, j + 1);
        lemma_cell_previous_column(a, b, t, i1, j);
        lemma_cell_next_row(a, b, t, i1, j);
        if t && swapped_at(a, b, i, j + 1) {
            let j1 = (j - 1) as nat;
            lemma_cell_upper(a, b, t, i, j);
            lemma_cell_next_row(a, b, t, (i - 2) as nat, j1);
        }
    }
}

/// Two cells of one column differ by at most the distance of their rows.
pub proof fn lemma_cell_rows(a: Seq<char>, b: Seq<char>, t: bool, i: nat, i2: nat, j: nat)
    ensures
        i <= i2 ==> cell(a, b, t, i2, j) <= cell(a, b, t, i, j) + (i2 - i) && cell(a, b, t, i, j)
            <= cell(a, b, t, i2, j) + (i2 - i),
        i2 <= i ==> cell(a, b, t, i2, j) <= cell(a, b, t, i, j) + (i - i2) && cell(a, b, t, i, j)
            <= cell(a, b, t, i2, j) + (i - i2),
    decreases
            if i <= i2 {
                i2 - i
            } else {
                i - i2
            },
{
    if i < i2 {
        let m = (i2 - 1) as nat;
        lemma_cell_rows(a, b, t, i, m, j);
        lemma_cell_next_row(a, b, t, m, j);
        lemma_cell_previous_row(a, b, t, m, j);
    } else if i2 < i {
        let m = (i - 1) as nat;
        lemma_cell_rows(a, b, t, m, i2, j);
        lemma_cell_next_row(a, b, t, m, j);
        lemma_cell_previous_row(a, b, t, m, j);
    }
}

/// A distance is at least the difference of the two lengths.
pub proof fn lemma_cell_lower(a: Seq<char>, b: Seq<char>, t: bool, i: nat, j: nat)
    ensures
        cell(a, b, t, i, j) + i >= j,
        cell(a, b, t, i, j) + j >= i,
    decreases i + j,
{
    if i > 0 && j > 0 {
        lemma_cell_witness(a, b, t, i, j);
        lemma_cell_lower(a, b, t, (i - 1) as nat, j);
        lemma_cell_lower(a, b, t, i, (j - 1) as nat);
        lemma_cell_lower(a, b, t, (i - 1) as nat, (j - 1) as nat);
        if i >= 2 && j >= 2 {
            lemma_cell_lower(a, b, t, (i - 2) as nat, (j - 2) as nat);
        }
    }
}

/// Past the end of `a`, a longer prefix is never closer to `b[..j]`.
pub proof fn lemma_cell_past_end(a: Seq<char>, b: Seq<char>, t: bool, i: nat, j: nat)
    requires
        i >= a.len(),
    ensures
        cell(a, b, t, i, j) <= cell(a, b, t, i + 1, j),
    decreases j,
{
    if j > 0 {
        let j1 = (j - 1) as nat;
        lemma_cell_witness(a, b, t, i + 1, j);
        lemma_cell_past_end(a, b, t, i, j1);
        lemma_cell_next_column(a, b, t, i, j1);
    }
}

/// Past the end of `a`, no prefix is closer to `b[..j]` than `a` itself.
pub proof fn lemma_cell_beyond(a: Seq<char>, b: Seq<char>, t: bool, i: nat, j: nat)
    requires
        i >= a.len(),
    ensures
        cell(a, b, t, a.len(), j) <= cell(a, b, t, i, j),
    decreases i,
{
    if i > a.len() {
        lemma_cell_beyond(a, b, t, (i - 1) as nat, j);
        lemma_cell_past_end(a, b, t, (i - 1) as nat, j);
    }
}

/// `x`, but no more than `cap`.
pub open spec fn cut(x: nat, cap: nat) -> nat {
    if x <= cap {
        x
    } else {
        cap
    }
}

/// The cell `(i, j)` of the table, cut off at `cap`.
#[verifier::opaque]
pub open spec fn cut_cell(a: Seq<char>, b: Seq<char>, t: bool, i: nat, j: nat, cap: nat) -> nat {
    cut(cell(a, b, t, i, j), cap)
}

/// A row of the table, each cell cut off at `cap`.
pub open spec fn cut_row(
    row: Seq<u16>,
    a: Seq<char>,
    b: Seq<char>,
    t: bool,
    i: nat,
    upto: int,
    cap: nat,
) -> bool {
    &&& row.len() == upto
    &&& forall|j: int| 0 <= j < upto ==> (#[trigger] row[j]) == cut_cell(a, b, t, i, j as nat, cap)
}

/// The first row of the table: from nothing to each prefix of `b`.
fn first_row(a: &[char], b: &[char], t: bool, cap: u16) -> (row: Vec<u16>)
    ensures
        cut_row(row@, a@, b@, t, 0, b@.len() as int + 1, cap as nat),
{
    let n = b.len();
    let mut row: Vec<u16> = Vec::new();
    row.push(0);
    let mut j: usize = 0;
    proof {
        reveal(cut_cell);
    }
    while j < n
        invariant
            n == b@.len(),
            j <= n,
            cut_row(row@, a@, b@, t, 0, j + 1, cap as nat),
        decreases n - j,
    {
        proof {
            reveal(cut_cell);
        }
        let next: u16 = if j + 1 > cap as usize {
            cap
        } else {
            (j + 1) as u16
        };
        row.push(next);
        j += 1;
    }
    row
}

/// A cell, cut off at `cap`, from its neighbours: the one above, the one to
/// the left, the one across with the cost of keeping or replacing the unit,
/// and where the last two units are swapped the one two across.
pub open spec fn cut_step(up: nat, left: nat, across: nat, same: bool, swap: Option<nat>, cap: nat) -> nat {
    let keep = across + if same {
        0nat
    } else {
        1nat
    };
    let best = min3(up + 1, left + 1, keep);
    match swap {
        Some(far) => cut(min2(best, far + 1), cap),
        None => cut(best, cap),
    }
}

/// A cell cut off at `cap` is found from its neighbours cut off at `cap`.
proof fn lemma_cut_cell(a: Seq<char>, b: Seq<char>, t: bool, i: nat, j: nat, cap: nat)
    requires
        i >= 1,
        j >= 1,
    ensures
        cut_cell(a, b, t, i, j, cap) == cut_step(
            cut_cell(a, b, t, (i - 1) as nat, j, cap),
            cut_cell(a, b, t, i, (j - 1) as nat, cap),
            cut_cell(a, b, t, (i - 1) as nat, (j - 1) as nat, cap),
            matches_at(a, b, i, j),
            if t && swapped_at(a, b, i, j) {
                Some(cut_cell(a, b, t, (i - 2) as nat, (j - 2) as nat, cap))
            } else {
                None
            },
            cap,
        ),
        cut_cell(a, b, t, i, 0, cap) == cut(i, cap),
        cut_cell(a, b, t, i, j, cap) <= cap,
        cut_cell(a, b, t, (i - 1) as nat, j, cap) <= cap,
        cut_cell(a, b, t, i, (j - 1) as nat, cap) <= cap,
        cut_cell(a, b, t, (i - 1) as nat, (j - 1) as nat, cap) <= cap,
        i >= 2 && j >= 2 ==> cut_cell(a, b, t, (i - 2) as nat, (j - 2) as nat, cap) <= cap,
{
    reveal(cut_cell);
}

fn step(up: u16, left: u16, across: u16, same: bool, swap: Option<u16>, cap: u16) -> (r: u16)
    requires
        up <= cap,
        left <= cap,
        across <= cap,
        cap < u16::MAX,
        swap matches Some(far) ==> far <= cap,
    ensures
        r == cut_step(
            up as nat,
            left as nat,
            across as nat,
            same,
            match swap {
                Some(far) => Some(far as nat),
                None => None,
            },
            cap as nat,
        ),
{
    let keep: u16 = if same {
        across
    } else {
        across + 1
    };
    let mut best: u16 = if up <= left {
        up + 1
    } else {
        left + 1
    };
    if keep < best {
        best = keep;
    }
    match swap {
        Some(far) => {
            if far + 1 < best {
                best = far + 1;
            }
        },
        None => {},
    }
    if best > cap {
        cap
    } else {
        best
    }
}

/// The row `i` of the table from the two rows before it.
fn next_row(
    a: &[char],
    b: &[char],
    t: bool,
    cap: u16,
    i: usize,
    before: &Vec<u16>,
    above: &Vec<u16>,
) -> (row: Vec<u16>)
    requires
        1 <= i <= a@.len(),
        cap < u16::MAX,
        cut_row(above@, a@, b@, t, (i - 1) as nat, b@.len() as int + 1, cap as nat),
        i >= 2 ==> cut_row(before@, a@, b@, t, (i - 2) as nat, b@.len() as int + 1, cap as nat),
    ensures
        cut_row(row@, a@, b@, t, i as nat, b@.len() as int + 1, cap as nat),
{
    let n = b.len();
    let mut row: Vec<u16> = Vec::new();
    let first: u16 = if i > cap as usize {
        cap
    } else {
        i as u16
    };
    proof {
        lemma_cut_cell(a@, b@, t, i as nat, 1, cap as nat);
    }
    row.push(first);
    let mut j: usize = 0;
    while j < n
        invariant
            n == b@.len(),
            1 <= i <= a@.len(),
            cap < u16::MAX,
            j <= n,
            cut_row(above@, a@, b@, t, (i - 1) as nat, n + 1, cap as nat),
            i >= 2 ==> cut_row(before@, a@, b@, t, (i - 2) as nat, n + 1, cap as nat),
            cut_row(row@, a@, b@, t, i as nat, j + 1, cap as nat),
        decreases n - j,
    {
        let same = a[i - 1] == b[j];
        let swapped = t && i >= 2 && j >= 1 && a[i - 1] == b[j - 1] && a[i - 2] == b[j];
        let swap: Option<u16> = if swapped {
            Some(before[j - 1])
        } else {
            None
        };
        proof {
            lemma_cut_cell(a@, b@, t, i as nat, (j + 1) as nat, cap as nat);
            assert(above@[j + 1] == cut_cell(a@, b@, t, (i - 1) as nat, (j + 1) as nat, cap as nat));
            assert(above@[j as int] == cut_cell(a@, b@, t, (i - 1) as nat, j as nat, cap as nat));
            assert(row@[j as int] == cut_cell(a@, b@, t, i as nat, j as nat, cap as nat));
            assert(same == matches_at(a@, b@, i as nat, (j + 1) as nat));
            assert(swapped == (t && swapped_at(a@, b@, i as nat, (j + 1) as nat)));
            if swapped {
                assert(before@[j - 1] == cut_cell(
                    a@,
                    b@,
                    t,
                    (i - 2) as nat,
                    (j - 1) as nat,
                    cap as nat,
                ));
            }
        }
        let best = step(above[j + 1], row[j], above[j], same, swap, cap);
        row.push(best);
        j += 1;
    }
    row
}

/// The distance between `a` and `b` by the table itself, filled row by row
/// with every cell cut off just above the ceiling: exact up to the ceiling,
/// saturated beyond it.
pub fn table_distance(a: &[char], b: &[char], transposition: bool, max_distance: u8) -> (d:
    Distance)
    requires
        max_distance < u8::MAX,
    ensures
        d == saturated(edit_distance(a@, b@, transposition), max_distance),
{
    let cap: u16 = max_distance as u16 + 1;
    let m = a.len();
    let n = b.len();
    let mut before: Vec<u16> = Vec::new();
    let mut above = first_row(a, b, transposition, cap);
    let mut i: usize = 0;
    while i < m
        invariant
            m == a@.len(),
            n == b@.len(),
            cap == max_distance + 1,
            i <= m,
            cut_row(above@, a@, b@, transposition, i as nat, n + 1, cap as nat),
            i >= 1 ==> cut_row(before@, a@, b@, transposition, (i - 1) as nat, n + 1, cap as nat),
        decreases m - i,
    {
        let row = next_row(a, b, transposition, cap, i + 1, &before, &above);
        before = above;
        above = row;
        i += 1;
    }
    let last = above[n];
    proof {
        reveal(cut_cell);
        assert(last == cut_cell(a@, b@, transposition, m as nat, n as nat, cap as nat));
    }
    make_distance(last as u8, max_distance)
}

} // verus!
