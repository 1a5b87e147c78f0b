//! Laws of the edit distance, and with them of everything that reports it.

use crate::distance::saturated;
use crate::edit_distance::{
    cell, edit_distance, lemma_cell_lower, lemma_cell_rows, lemma_cell_upper, lemma_cell_witness,
    matches_at, swapped_at,
};
use vstd::prelude::*;

verus! {

proof fn lemma_cell_symmetric(a: Seq<char>, b: Seq<char>, t: bool, i: nat, j: nat)
    ensures
        cell(a, b, t, i, j) == cell(b, a, t, j, i),
    decreases i + j,
{
    if i > 0 && j > 0 {
        lemma_cell_symmetric(a, b, t, (i - 1) as nat, j);
        lemma_cell_symmetric(a, b, t, i, (j - 1) as nat);
        lemma_cell_symmetric(a, b, t, (i - 1) as nat, (j - 1) as nat);
        if i >= 2 && j >= 2 {
            lemma_cell_symmetric(a, b, t, (i - 2) as nat, (j - 2) as nat);
        }
    }
}

/// The distance from `a` to `b` is the distance from `b` to `a`, with and
/// without transposition; so the report for a query `a` and a candidate `b`
/// is the report for the query `b` and the candidate `a`.
pub proof fn lemma_symmetry(a: Seq<char>, b: Seq<char>, transposition: bool, max_distance: u8)
    ensures
        edit_distance(a, b, transposition) == edit_distance(b, a, transposition),
        saturated(edit_distance(a, b, transposition), max_distance) == saturated(
            edit_distance(b, a, transposition),
            max_distance,
        ),
{
    lemma_cell_symmetric(a, b, transposition, a.len(), b.len());
}

proof fn lemma_cell_renamed(
    a: Seq<char>,
    b: Seq<char>,
    f: spec_fn(char) -> char,
    t: bool,
    i: nat,
    j: nat,
)
    requires
        forall|x: char, y: char| #[trigger] f(x) == #[trigger] f(y) ==> x == y,
    ensures
        cell(a.map_values(f), b.map_values(f), t, i, j) == cell(a, b, t, i, j),
    decreases i + j,
{
    let fa = a.map_values(f);
    let fb = b.map_values(f);
    if i > 0 && j > 0 {
        lemma_cell_renamed(a, b, f, t, (i - 1) as nat, j);
        lemma_cell_renamed(a, b, f, t, i, (j - 1) as nat);
        lemma_cell_renamed(a, b, f, t, (i - 1) as nat, (j - 1) as nat);
        if i >= 2 && j >= 2 {
            lemma_cell_renamed(a, b, f, t, (i - 2) as nat, (j - 2) as nat);
        }
        assert(matches_at(fa, fb, i, j) == matches_at(a, b, i, j));
        assert(swapped_at(fa, fb, i, j) == swapped_at(a, b, i, j));
    }
}

/// Renaming the code points one for one changes no distance: the distance
/// counts code points, whatever they are and however many bytes they take.
pub proof fn lemma_alphabet_independence(
    a: Seq<char>,
    b: Seq<char>,
    f: spec_fn(char) -> char,
    transposition: bool,
)
    requires
        forall|x: char, y: char| #[trigger] f(x) == #[trigger] f(y) ==> x == y,
    ensures
        edit_distance(a.map_values(f), b.map_values(f), transposition) == edit_distance(
            a,
            b,
            transposition,
        ),
{
    lemma_cell_renamed(a, b, f, transposition, a.len(), b.len());
}

proof fn lemma_cell_triangle(a: Seq<char>, b: Seq<char>, c: Seq<char>, i: nat, j: nat, l: nat)
    requires
        i <= a.len(),
        j <= b.len(),
        l <= c.len(),
    ensures
        cell(a, c, false, i, l) <= cell(a, b, false, i, j) + cell(b, c, false, j, l),
    decreases i + j + l,
{
    if i == 0 {
        lemma_cell_lower(b, c, false, j, l);
    } else if l == 0 {
        lemma_cell_lower(a, b, false, i, j);
    } else if j == 0 {
        lemma_cell_rows(a, c, false, 0, i, l);
    } else {
        let i1 = (i - 1) as nat;
        let j1 = (j - 1) as nat;
        let l1 = (l - 1) as nat;
        lemma_cell_witness(a, b, false, i, j);
        lemma_cell_witness(b, c, false, j, l);
        lemma_cell_upper(a, c, false, i, l);
        if cell(a, b, false, i, j) == cell(a, b, false, i1, j) + 1 {
            lemma_cell_triangle(a, b, c, i1, j, l);
        } else if cell(b, c, false, j, l) == cell(b, c, false, j, l1) + 1 {
            lemma_cell_triangle(a, b, c, i, j, l1);
        } else if cell(a, b, false, i, j) == cell(a, b, false, i, j1) + 1 {
            if cell(b, c, false, j, l) == cell(b, c, false, j1, l) + 1 {
                lemma_cell_triangle(a, b, c, i, j1, l);
            } else {
                lemma_cell_triangle(a, b, c, i, j1, l1);
            }
        } else if cell(b, c, false, j, l) == cell(b, c, false, j1, l) + 1 {
            lemma_cell_triangle(a, b, c, i1, j1, l);
        } else {
            lemma_cell_triangle(a, b, c, i1, j1, l1);
        }
    }
}

/// The triangle inequality of Levenshtein's distance, and of its reports as
/// numbers: going by way of `b` is never shorter.
pub proof fn lemma_triangle(a: Seq<char>, b: Seq<char>, c: Seq<char>, max_distance: u8)
    requires
        max_distance < u8::MAX,
    ensures
        edit_distance(a, c, false) <= edit_distance(a, b, false) + edit_distance(b, c, false),
        saturated(edit_distance(a, c, false), max_distance).value() <= saturated(
            edit_distance(a, b, false),
            max_distance,
        ).value() + saturated(edit_distance(b, c, false), max_distance).value(),
{
    lemma_cell_triangle(a, b, c, a.len(), b.len(), c.len());
}

/// Two prefixes at distance zero are the same.
proof fn lemma_zero_equal(a: Seq<char>, b: Seq<char>, t: bool, i: nat, j: nat)
    requires
        i <= a.len(),
        j <= b.len(),
        cell(a, b, t, i, j) == 0,
    ensures
        i == j,
        forall|q: int| 0 <= q < i ==> a[q] == b[q],
    decreases i + j,
{
    if i > 0 && j > 0 {
        lemma_cell_witness(a, b, t, i, j);
        lemma_zero_equal(a, b, t, (i - 1) as nat, (j - 1) as nat);
    }
}

/// Two prefixes that agree are at distance zero.
proof fn lemma_equal_zero(a: Seq<char>, b: Seq<char>, t: bool, i: nat)
    requires
        i <= a.len(),
        i <= b.len(),
        forall|q: int| 0 <= q < i ==> a[q] == b[q],
    ensures
        cell(a, b, t, i, i) == 0,
    decreases i,
{
    if i > 0 {
        lemma_equal_zero(a, b, t, (i - 1) as nat);
        assert(matches_at(a, b, i, i));
        lemma_cell_upper(a, b, t, i, i);
    }
}

/// Two prefixes of one length within one edit differ in one place at most.
proof fn lemma_one_place(a: Seq<char>, b: Seq<char>, i: nat, x: int, y: int)
    requires
        i <= a.len(),
        i <= b.len(),
        cell(a, b, false, i, i) <= 1,
        0 <= x < y < i,
    ensures
        a[x] == b[x] || a[y] == b[y],
    decreases i,
{
    let i1 = (i - 1) as nat;
    lemma_cell_witness(a, b, false, i, i);
    if cell(a, b, false, i, i) == cell(a, b, false, i1, i) + 1 {
        lemma_zero_equal(a, b, false, i1, i);
    } else if cell(a, b, false, i, i) == cell(a, b, false, i, i1) + 1 {
        lemma_zero_equal(a, b, false, i, i1);
    } else if !matches_at(a, b, i, i) {
        lemma_zero_equal(a, b, false, i1, i1);
    } else if y < i1 {
        lemma_one_place(a, b, i1, x, y);
    }
}

/// Past a place from which two sequences agree, the distance grows no more.
proof fn lemma_common_tail(a: Seq<char>, b: Seq<char>, t: bool, from: nat, i: nat)
    requires
        from <= i <= a.len(),
        i <= b.len(),
        forall|q: int| from <= q < i ==> a[q] == b[q],
    ensures
        cell(a, b, t, i, i) <= cell(a, b, t, from, from),
    decreases i,
{
    if i > from {
        lemma_common_tail(a, b, t, from, (i - 1) as nat);
        assert(matches_at(a, b, i, i));
        lemma_cell_upper(a, b, t, i, i);
    }
}

/// The credit for a transposition: where `b` is `a` with the two different
/// neighbours at `p` and `p + 1` swapped, the distance is one with
/// transposition and two without.
pub proof fn lemma_transposition_credit(a: Seq<char>, b: Seq<char>, p: int)
    requires
        a.len() == b.len(),
        0 <= p,
        p + 1 < a.len(),
        a[p] != a[p + 1],
        b[p] == a[p + 1],
        b[p + 1] == a[p],
        forall|q: int| 0 <= q < a.len() && q != p && q != p + 1 ==> a[q] == b[q],
    ensures
        edit_distance(a, b, true) == 1,
        edit_distance(a, b, false) == 2,
{
    let n = a.len();
    let at = p as nat;
    lemma_equal_zero(a, b, true, at);
    lemma_equal_zero(a, b, false, at);
    assert(swapped_at(a, b, at + 2, at + 2));
    lemma_cell_upper(a, b, true, at + 2, at + 2);
    lemma_cell_upper(a, b, false, at + 1, at + 1);
    lemma_cell_upper(a, b, false, at + 2, at + 2);
    lemma_common_tail(a, b, true, at + 2, n);
    lemma_common_tail(a, b, false, at + 2, n);
    if cell(a, b, true, n, n) == 0 {
        lemma_zero_equal(a, b, true, n, n);
    }
    if cell(a, b, false, n, n) <= 1 {
        lemma_one_place(a, b, n, p, p + 1);
    }
}

} // verus!
