//! Why the automaton is right: after `j` units of the candidate, the set of
//! states stands for the column `j` of the distance table of query and
//! candidate, cut off at the ceiling.

use crate::distance::saturated;
use crate::edit_distance::{
    cell, edit_distance, lemma_cell_beyond, lemma_cell_lower, lemma_cell_next_column,
    lemma_cell_rows, lemma_cell_upper, lemma_cell_witness, matches_at, swapped_at,
};
use crate::levenshtein_nfa::{
    diameter, hit, is_successor, leads_to, steps_to, window, windowed, MAX_DISTANCE,
};
use crate::multistate::{
    canonical, closing_cost, covers, least_cost, least_offset, lemma_least_cost,
    lemma_reaches_transitive, lowered, reaches, sorted, NFAState,
};
use vstd::prelude::*;

verus! {

/// The state `s` of a set based at `base` claims no more than the table
/// allows: a plain state at `offset` with `errors` edits says that the query's
/// first `offset` units are within `errors` edits of the first `j` units of
/// `b`; a half-done swap says so of the units before the swapped pair, one
/// edit and one candidate unit earlier.
pub open spec fn sound_state(
    s: NFAState,
    base: int,
    a: Seq<char>,
    b: Seq<char>,
    t: bool,
    k: int,
    j: nat,
) -> bool {
    &&& s.distance <= k
    &&& if s.in_transpose {
        &&& t
        &&& j >= 1
        &&& base + s.offset + 1 < a.len()
        &&& a[base + s.offset + 1] == b[j - 1]
        &&& cell(a, b, t, (base + s.offset) as nat, (j - 1) as nat) + 1 <= s.distance
    } else {
        cell(a, b, t, (base + s.offset) as nat, j) <= s.distance
    }
}

/// Every member is sound.
pub open spec fn sound(
    ms: Seq<NFAState>,
    base: int,
    a: Seq<char>,
    b: Seq<char>,
    t: bool,
    k: int,
    j: nat,
) -> bool {
    forall|i: int| 0 <= i < ms.len() ==> sound_state(#[trigger] ms[i], base, a, b, t, k, j)
}

/// A state that the table allows after `j` units of `b`, within the ceiling.
pub open spec fn due(
    a: Seq<char>,
    b: Seq<char>,
    t: bool,
    k: int,
    j: nat,
    offset: int,
    errors: int,
    transposing: bool,
) -> bool {
    &&& 0 <= offset
    &&& errors <= k
    &&& if transposing {
        &&& t
        &&& j >= 1
        &&& offset + 1 < a.len()
        &&& a[offset + 1] == b[j - 1]
        &&& cell(a, b, t, offset as nat, (j - 1) as nat) + 1 <= errors
    } else {
        cell(a, b, t, offset as nat, j) <= errors
    }
}

/// Some member of the set based at `base` makes the given state redundant.
pub open spec fn accounted(
    ms: Seq<NFAState>,
    base: int,
    offset: int,
    errors: int,
    transposing: bool,
) -> bool {
    exists|i: int| 0 <= i < ms.len() && reaches(#[trigger] ms[i], base, offset, errors, transposing)
}

/// The set misses nothing that the table allows.
pub open spec fn complete(
    ms: Seq<NFAState>,
    base: int,
    a: Seq<char>,
    b: Seq<char>,
    t: bool,
    k: int,
    j: nat,
) -> bool {
    forall|offset: int, errors: int, transposing: bool| #[trigger]
        due(a, b, t, k, j, offset, errors, transposing) ==> accounted(
            ms,
            base,
            offset,
            errors,
            transposing,
        )
}

/// The shape `ms`, based at `base`, is the automaton's set after the first `j`
/// units of `b` were read against the query `a`.
pub open spec fn tracks(
    ms: Seq<NFAState>,
    base: int,
    a: Seq<char>,
    b: Seq<char>,
    t: bool,
    k: int,
    j: nat,
) -> bool {
    &&& 0 <= base <= a.len()
    &&& j <= b.len()
    &&& canonical(ms)
    &&& least_offset(ms) == 0
    &&& sound(ms, base, a, b, t, k, j)
    &&& complete(ms, base, a, b, t, k, j)
}

/// The plain state at `offset` with `errors` edits.
pub open spec fn plain(offset: int, errors: int) -> NFAState {
    NFAState { offset: offset as u32, distance: errors as u8, in_transpose: false }
}

/// The half-done swap at `offset` with `errors` edits.
pub open spec fn swapping(offset: int, errors: int) -> NFAState {
    NFAState { offset: offset as u32, distance: errors as u8, in_transpose: true }
}

/// The start set tracks the empty candidate.
pub proof fn lemma_tracks_start(a: Seq<char>, b: Seq<char>, t: bool, k: int)
    requires
        0 <= k,
    ensures
        tracks(seq![plain(0, 0)], 0, a, b, t, k, 0),
{
    let ms = seq![plain(0, 0)];
    assert forall|offset: int, errors: int, transposing: bool| #[trigger]
        due(a, b, t, k, 0, offset, errors, transposing) implies accounted(
        ms,
        0,
        offset,
        errors,
        transposing,
    ) by {
        assert(reaches(ms[0], 0, offset, errors, transposing));
    }
}

/// A tracking shape keeps within the window of its characteristic vectors.
pub proof fn lemma_tracks_windowed(
    ms: Seq<NFAState>,
    base: int,
    a: Seq<char>,
    b: Seq<char>,
    t: bool,
    k: int,
    j: nat,
)
    requires
        tracks(ms, base, a, b, t, k, j),
    ensures
        windowed(ms, k),
{
    if ms.len() > 0 {
        let first = ms[0];
        assert(sound_state(first, base, a, b, t, k, j));
        if first.in_transpose {
            lemma_cell_lower(a, b, t, base as nat, (j - 1) as nat);
        } else {
            lemma_cell_lower(a, b, t, base as nat, j);
        }
        assert(j - base <= k);
        assert forall|i: int| 0 <= i < ms.len() implies {
            let s = #[trigger] ms[i];
            s.distance <= k && if s.in_transpose {
                s.distance >= 1 && s.offset + 2 <= k + s.distance
            } else {
                s.offset <= k + s.distance
            }
        } by {
            let s = ms[i];
            assert(sound_state(s, base, a, b, t, k, j));
            if s.in_transpose {
                lemma_cell_lower(a, b, t, (base + s.offset) as nat, (j - 1) as nat);
            } else {
                lemma_cell_lower(a, b, t, (base + s.offset) as nat, j);
            }
        }
    }
}

/// What follows a sound state is sound one unit later.
proof fn lemma_successor_sound(
    s: NFAState,
    x: NFAState,
    base: int,
    a: Seq<char>,
    b: Seq<char>,
    t: bool,
    k: int,
    j: nat,
)
    requires
        0 <= base,
        j < b.len(),
        sound_state(s, base, a, b, t, k, j),
        is_successor(s, x, k, t, window(a, base, b[j as int], diameter(k))),
    ensures
        sound_state(x, base, a, b, t, k, j + 1),
{
    let at = (base + s.offset) as nat;
    if s.in_transpose {
        assert(swapped_at(a, b, at + 2, j + 1));
        lemma_cell_upper(a, b, t, at + 2, j + 1);
    } else if x.in_transpose {
    } else if x.offset == s.offset {
        lemma_cell_next_column(a, b, t, at, j);
    } else if x.offset == s.offset + 1 {
        if x.distance == s.distance {
            assert(matches_at(a, b, at + 1, j + 1));
        }
        lemma_cell_upper(a, b, t, at + 1, j + 1);
    } else {
        let landing = (base + x.offset) as nat;
        let before = (landing - 1) as nat;
        assert(matches_at(a, b, landing, j + 1));
        lemma_cell_upper(a, b, t, landing, j + 1);
        lemma_cell_rows(a, b, t, at, before, j);
    }
}

/// A step keeps the set sound.
proof fn lemma_step_sound(
    from: Seq<NFAState>,
    to: Seq<NFAState>,
    base: int,
    a: Seq<char>,
    b: Seq<char>,
    t: bool,
    k: int,
    j: nat,
)
    requires
        0 <= base,
        j < b.len(),
        sound(from, base, a, b, t, k, j),
        steps_to(from, to, k, t, window(a, base, b[j as int], diameter(k))),
    ensures
        sound(to, base, a, b, t, k, j + 1),
{
    reveal(steps_to);
    let mv = window(a, base, b[j as int], diameter(k));
    assert forall|i: int| 0 <= i < to.len() implies sound_state(
        #[trigger] to[i],
        base,
        a,
        b,
        t,
        k,
        j + 1,
    ) by {
        assert(to.contains(to[i]));
        let m = choose|m: int| 0 <= m < from.len() && is_successor(#[trigger] from[m], to[i], k, t, mv);
        lemma_successor_sound(from[m], to[i], base, a, b, t, k, j);
    }
}

/// Whatever a successor of a member makes redundant, the next set accounts for.
proof fn lemma_via(
    from: Seq<NFAState>,
    to: Seq<NFAState>,
    i: int,
    x: NFAState,
    base: int,
    offset: int,
    errors: int,
    transposing: bool,
    k: int,
    t: bool,
    mv: Seq<bool>,
)
    requires
        steps_to(from, to, k, t, mv),
        0 <= i < from.len(),
        is_successor(from[i], x, k, t, mv),
        reaches(x, base, offset, errors, transposing),
    ensures
        accounted(to, base, offset, errors, transposing),
{
    reveal(steps_to);
    assert(covers(to, x));
    let w = choose|w: int| 0 <= w < to.len() && (#[trigger] to[w]).subsumes(x);
    lemma_reaches_transitive(to[w], x, base, offset, errors, transposing);
}

/// An insertion: what was due at an offset is due there one edit and one unit later.
proof fn lemma_due_by_insertion(
    from: Seq<NFAState>,
    to: Seq<NFAState>,
    base: int,
    a: Seq<char>,
    b: Seq<char>,
    t: bool,
    k: int,
    j: nat,
    offset: int,
    goal: int,
)
    requires
        0 <= k <= MAX_DISTANCE,
        windowed(from, k),
        complete(from, base, a, b, t, k, j),
        steps_to(from, to, k, t, window(a, base, b[j as int], diameter(k))),
        goal <= k,
        due(a, b, t, k, j, offset, goal - 1, false),
    ensures
        accounted(to, base, offset, goal, false),
{
    let mv = window(a, base, b[j as int], diameter(k));
    let i = choose|i: int|
        0 <= i < from.len() && reaches(#[trigger] from[i], base, offset, goal - 1, false);
    let s = from[i];
    lemma_via(from, to, i, plain(s.offset as int, s.distance + 1), base, offset, goal, false, k, t, mv);
}

/// A substitution: what was due at an offset is due one offset, one edit and
/// one unit later.
proof fn lemma_due_by_substitution(
    from: Seq<NFAState>,
    to: Seq<NFAState>,
    base: int,
    a: Seq<char>,
    b: Seq<char>,
    t: bool,
    k: int,
    j: nat,
    offset: int,
    goal: int,
)
    requires
        0 <= k <= MAX_DISTANCE,
        windowed(from, k),
        complete(from, base, a, b, t, k, j),
        steps_to(from, to, k, t, window(a, base, b[j as int], diameter(k))),
        goal <= k,
        due(a, b, t, k, j, offset, goal - 1, false),
    ensures
        accounted(to, base, offset + 1, goal, false),
{
    let mv = window(a, base, b[j as int], diameter(k));
    let i = choose|i: int|
        0 <= i < from.len() && reaches(#[trigger] from[i], base, offset, goal - 1, false);
    let s = from[i];
    lemma_via(from, to, i, plain(s.offset + 1, s.distance + 1), base, offset + 1, goal, false, k, t, mv);
}

/// A match: where the query unit at `offset` is the unit read, what was due
/// at `offset` is due one offset later at no further edit.
proof fn lemma_due_by_match(
    from: Seq<NFAState>,
    to: Seq<NFAState>,
    base: int,
    a: Seq<char>,
    b: Seq<char>,
    t: bool,
    k: int,
    j: nat,
    offset: int,
    goal: int,
)
    requires
        0 <= k <= MAX_DISTANCE,
        0 <= base,
        j < b.len(),
        windowed(from, k),
        complete(from, base, a, b, t, k, j),
        steps_to(from, to, k, t, window(a, base, b[j as int], diameter(k))),
        due(a, b, t, k, j, offset, goal, false),
        offset < a.len(),
        a[offset] == b[j as int],
    ensures
        accounted(to, base, offset + 1, goal, false),
{
    let mv = window(a, base, b[j as int], diameter(k));
    let i = choose|i: int|
        0 <= i < from.len() && reaches(#[trigger] from[i], base, offset, goal, false);
    let s = from[i];
    if base + s.offset == offset {
        assert(hit(mv, s.offset as int));
        lemma_via(from, to, i, plain(s.offset + 1, s.distance as int), base, offset + 1, goal, false, k, t, mv);
    } else if base + s.offset < offset {
        let d = offset - (base + s.offset);
        assert(hit(mv, s.offset + d));
        lemma_via(from, to, i, plain(s.offset + 1 + d, s.distance + d), base, offset + 1, goal, false, k, t, mv);
    } else {
        lemma_via(from, to, i, plain(s.offset as int, s.distance + 1), base, offset + 1, goal, false, k, t, mv);
    }
}

/// The end of a swap: where a half-done swap was due at `offset` and the
/// query unit at `offset` is the unit read, the state past the pair is due.
proof fn lemma_due_by_swap(
    from: Seq<NFAState>,
    to: Seq<NFAState>,
    base: int,
    a: Seq<char>,
    b: Seq<char>,
    t: bool,
    k: int,
    j: nat,
    offset: int,
    goal: int,
)
    requires
        0 <= k <= MAX_DISTANCE,
        0 <= base,
        j < b.len(),
        windowed(from, k),
        complete(from, base, a, b, t, k, j),
        steps_to(from, to, k, t, window(a, base, b[j as int], diameter(k))),
        due(a, b, t, k, j, offset, goal, true),
        offset < a.len(),
        a[offset] == b[j as int],
    ensures
        accounted(to, base, offset + 2, goal, false),
{
    let mv = window(a, base, b[j as int], diameter(k));
    let i = choose|i: int|
        0 <= i < from.len() && reaches(#[trigger] from[i], base, offset, goal, true);
    let s = from[i];
    let landing = offset + 2;
    if s.in_transpose {
        assert(hit(mv, s.offset as int));
        lemma_via(from, to, i, plain(s.offset + 2, s.distance as int), base, landing, goal, false, k, t, mv);
    } else if base + s.offset == offset {
        assert(hit(mv, s.offset as int));
        lemma_via(from, to, i, plain(s.offset + 1, s.distance as int), base, landing, goal, false, k, t, mv);
    } else if base + s.offset < offset {
        let d = offset - (base + s.offset);
        assert(hit(mv, s.offset + d));
        lemma_via(from, to, i, plain(s.offset + 1 + d, s.distance + d), base, landing, goal, false, k, t, mv);
    } else if base + s.offset == offset + 1 {
        lemma_via(from, to, i, plain(s.offset + 1, s.distance + 1), base, landing, goal, false, k, t, mv);
    } else {
        lemma_via(from, to, i, plain(s.offset as int, s.distance + 1), base, landing, goal, false, k, t, mv);
    }
}

/// The next set accounts for the table's own value at every query position.
proof fn lemma_plain_due(
    from: Seq<NFAState>,
    to: Seq<NFAState>,
    base: int,
    a: Seq<char>,
    b: Seq<char>,
    t: bool,
    k: int,
    j: nat,
    offset: nat,
)
    requires
        0 <= k <= MAX_DISTANCE,
        0 <= base,
        j < b.len(),
        windowed(from, k),
        complete(from, base, a, b, t, k, j),
        steps_to(from, to, k, t, window(a, base, b[j as int], diameter(k))),
        cell(a, b, t, offset, j + 1) <= k,
    ensures
        accounted(to, base, offset as int, cell(a, b, t, offset, j + 1) as int, false),
    decreases offset,
{
    let goal = cell(a, b, t, offset, j + 1) as int;
    let here = offset as int;
    if offset == 0 {
        assert(due(a, b, t, k, j, 0, j as int, false));
        lemma_due_by_insertion(from, to, base, a, b, t, k, j, 0, goal);
    } else {
        let up = (offset - 1) as nat;
        lemma_cell_witness(a, b, t, offset, j + 1);
        if goal == cell(a, b, t, up, j + 1) + 1 {
            lemma_plain_due(from, to, base, a, b, t, k, j, up);
            let w = choose|w: int|
                0 <= w < to.len() && reaches(#[trigger] to[w], base, up as int, goal - 1, false);
            assert(reaches(to[w], base, here, goal, false));
        } else if goal == cell(a, b, t, offset, j) + 1 {
            assert(due(a, b, t, k, j, here, goal - 1, false));
            lemma_due_by_insertion(from, to, base, a, b, t, k, j, here, goal);
        } else if !matches_at(a, b, offset, j + 1) && goal == cell(a, b, t, up, j) + 1 {
            assert(due(a, b, t, k, j, up as int, goal - 1, false));
            lemma_due_by_substitution(from, to, base, a, b, t, k, j, up as int, goal);
        } else if matches_at(a, b, offset, j + 1) && goal == cell(a, b, t, up, j) {
            assert(due(a, b, t, k, j, up as int, goal, false));
            lemma_due_by_match(from, to, base, a, b, t, k, j, up as int, goal);
        } else {
            assert(t && swapped_at(a, b, offset, j + 1));
            let back = offset - 2;
            assert(goal == cell(a, b, t, back as nat, (j - 1) as nat) + 1);
            assert(due(a, b, t, k, j, back, goal, true));
            lemma_due_by_swap(from, to, base, a, b, t, k, j, back, goal);
        }
    }
}

/// The next set accounts for every half-done swap that the table allows.
proof fn lemma_swap_due(
    from: Seq<NFAState>,
    to: Seq<NFAState>,
    base: int,
    a: Seq<char>,
    b: Seq<char>,
    t: bool,
    k: int,
    j: nat,
    offset: int,
    errors: int,
)
    requires
        0 <= k <= MAX_DISTANCE,
        0 <= base,
        j < b.len(),
        windowed(from, k),
        complete(from, base, a, b, t, k, j),
        steps_to(from, to, k, t, window(a, base, b[j as int], diameter(k))),
        due(a, b, t, k, j + 1, offset, errors, true),
    ensures
        accounted(to, base, offset, errors, true),
{
    let mv = window(a, base, b[j as int], diameter(k));
    let spent = cell(a, b, t, offset as nat, j) as int;
    assert(due(a, b, t, k, j, offset, spent, false));
    let i = choose|i: int|
        0 <= i < from.len() && reaches(#[trigger] from[i], base, offset, spent, false);
    let s = from[i];
    if base + s.offset == offset {
        if hit(mv, s.offset as int) {
            lemma_via(from, to, i, plain(s.offset + 1, s.distance as int), base, offset, errors, true, k, t, mv);
        } else {
            assert(hit(mv, s.offset + 1));
            lemma_via(from, to, i, swapping(s.offset as int, s.distance + 1), base, offset, errors, true, k, t, mv);
        }
    } else if base + s.offset < offset {
        lemma_via(from, to, i, plain(s.offset + 1, s.distance + 1), base, offset, errors, true, k, t, mv);
    } else {
        lemma_via(from, to, i, plain(s.offset as int, s.distance + 1), base, offset, errors, true, k, t, mv);
    }
}

/// A step keeps the set complete.
proof fn lemma_step_complete(
    from: Seq<NFAState>,
    to: Seq<NFAState>,
    base: int,
    a: Seq<char>,
    b: Seq<char>,
    t: bool,
    k: int,
    j: nat,
)
    requires
        0 <= k <= MAX_DISTANCE,
        0 <= base,
        j < b.len(),
        windowed(from, k),
        complete(from, base, a, b, t, k, j),
        steps_to(from, to, k, t, window(a, base, b[j as int], diameter(k))),
    ensures
        complete(to, base, a, b, t, k, j + 1),
{
    assert forall|offset: int, errors: int, transposing: bool| #[trigger]
        due(a, b, t, k, j + 1, offset, errors, transposing) implies accounted(
        to,
        base,
        offset,
        errors,
        transposing,
    ) by {
        if transposing {
            lemma_swap_due(from, to, base, a, b, t, k, j, offset, errors);
        } else {
            lemma_plain_due(from, to, base, a, b, t, k, j, offset as nat);
            let goal = cell(a, b, t, offset as nat, j + 1) as int;
            let w = choose|w: int|
                0 <= w < to.len() && reaches(#[trigger] to[w], base, offset, goal, false);
            assert(reaches(to[w], base, offset, errors, false));
        }
    }
}

/// Lowering the offsets and raising the base by as much changes nothing.
proof fn lemma_lowered(
    ms: Seq<NFAState>,
    shifted: Seq<NFAState>,
    by: int,
    base: int,
    a: Seq<char>,
    b: Seq<char>,
    t: bool,
    k: int,
    j: nat,
)
    requires
        sound(ms, base, a, b, t, k, j),
        complete(ms, base, a, b, t, k, j),
        lowered(ms, shifted, by),
    ensures
        sound(shifted, base + by, a, b, t, k, j),
        complete(shifted, base + by, a, b, t, k, j),
{
    assert forall|i: int| 0 <= i < shifted.len() implies sound_state(
        #[trigger] shifted[i],
        base + by,
        a,
        b,
        t,
        k,
        j,
    ) by {
        assert(sound_state(ms[i], base, a, b, t, k, j));
    }
    assert forall|offset: int, errors: int, transposing: bool| #[trigger]
        due(a, b, t, k, j, offset, errors, transposing) implies accounted(
        shifted,
        base + by,
        offset,
        errors,
        transposing,
    ) by {
        let i = choose|i: int|
            0 <= i < ms.len() && reaches(#[trigger] ms[i], base, offset, errors, transposing);
        assert(reaches(shifted[i], base + by, offset, errors, transposing));
    }
}

/// The least offset of a set that is sound and complete lies within the query.
proof fn lemma_base_within(
    ms: Seq<NFAState>,
    base: int,
    a: Seq<char>,
    b: Seq<char>,
    t: bool,
    k: int,
    j: nat,
)
    requires
        0 <= base <= a.len(),
        sorted(ms),
        sound(ms, base, a, b, t, k, j),
        complete(ms, base, a, b, t, k, j),
    ensures
        base + least_offset(ms) <= a.len(),
{
    if ms.len() > 0 {
        let first = ms[0];
        assert(sound_state(first, base, a, b, t, k, j));
        if !first.in_transpose && base + first.offset > a.len() {
            let end = a.len();
            lemma_cell_beyond(a, b, t, (base + first.offset) as nat, j);
            let true_cost = cell(a, b, t, end, j) as int;
            assert(due(a, b, t, k, j, end as int, true_cost, false));
            let i = choose|i: int|
                0 <= i < ms.len() && reaches(#[trigger] ms[i], base, end as int, true_cost, false);
            let s = ms[i];
            assert(sound_state(s, base, a, b, t, k, j));
            if i > 0 {
                assert(first.precedes(s));
            }
            lemma_cell_beyond(a, b, t, (base + s.offset) as nat, j);
        }
    }
}

/// One unit of the candidate: the shape that a tracking shape leads to tracks
/// the candidate one unit further, from a base within the query.
pub proof fn lemma_follow(
    from: Seq<NFAState>,
    to: Seq<NFAState>,
    delta: int,
    base: int,
    a: Seq<char>,
    b: Seq<char>,
    t: bool,
    k: int,
    j: nat,
)
    requires
        0 <= k <= MAX_DISTANCE,
        j < b.len(),
        tracks(from, base, a, b, t, k, j),
        leads_to(from, to, delta, k, t, window(a, base, b[j as int], diameter(k))),
        canonical(to),
    ensures
        0 <= delta,
        base + delta <= a.len(),
        tracks(to, base + delta, a, b, t, k, j + 1),
{
    let mv = window(a, base, b[j as int], diameter(k));
    let raw = choose|raw: Seq<NFAState>| #[trigger]
        steps_to(from, raw, k, t, mv) && lowered(raw, to, delta) && delta == least_offset(raw);
    assert(canonical(raw)) by {
        reveal(steps_to);
    }
    lemma_advance(from, raw, to, base, a, b, t, k, j);
}

/// One unit of the candidate: the set that follows a tracking shape, brought
/// to its own base, tracks the candidate one unit further.
proof fn lemma_advance(
    from: Seq<NFAState>,
    to: Seq<NFAState>,
    shifted: Seq<NFAState>,
    base: int,
    a: Seq<char>,
    b: Seq<char>,
    t: bool,
    k: int,
    j: nat,
)
    requires
        0 <= k <= MAX_DISTANCE,
        j < b.len(),
        tracks(from, base, a, b, t, k, j),
        steps_to(from, to, k, t, window(a, base, b[j as int], diameter(k))),
        canonical(to),
        lowered(to, shifted, least_offset(to)),
        canonical(shifted),
    ensures
        base + least_offset(to) <= a.len(),
        tracks(shifted, base + least_offset(to), a, b, t, k, j + 1),
{
    lemma_tracks_windowed(from, base, a, b, t, k, j);
    lemma_step_sound(from, to, base, a, b, t, k, j);
    lemma_step_complete(from, to, base, a, b, t, k, j);
    lemma_base_within(to, base, a, b, t, k, j + 1);
    lemma_lowered(to, shifted, least_offset(to), base, a, b, t, k, j + 1);
}

/// With more than `2k` query units left past the base, no member closes the
/// query within the ceiling.
pub proof fn lemma_far(ms: Seq<NFAState>, k: int, remaining: int)
    requires
        windowed(ms, k),
        remaining > 2 * k,
    ensures
        least_cost(ms, remaining, k + 1) == k + 1,
{
    lemma_least_cost(ms, remaining, k + 1);
}

/// At the candidate's end the least closing cost is the edit distance, or the
/// cap where the distance is beyond the ceiling.
pub proof fn lemma_final(
    ms: Seq<NFAState>,
    base: int,
    a: Seq<char>,
    b: Seq<char>,
    t: bool,
    k: int,
)
    requires
        0 <= k <= MAX_DISTANCE,
        tracks(ms, base, a, b, t, k, b.len()),
    ensures
        0 <= least_cost(ms, a.len() - base, k + 1),
        saturated(least_cost(ms, a.len() - base, k + 1) as nat, k as u8) == saturated(
            edit_distance(a, b, t),
            k as u8,
        ),
{
    let remaining = a.len() - base;
    let best = least_cost(ms, remaining, k + 1);
    let truth = edit_distance(a, b, t) as int;
    lemma_least_cost(ms, remaining, k + 1);
    assert forall|i: int| 0 <= i < ms.len() && !(#[trigger] ms[i]).in_transpose implies truth
        <= closing_cost(ms[i], remaining) by {
        let s = ms[i];
        assert(sound_state(s, base, a, b, t, k, b.len()));
        lemma_cell_rows(a, b, t, (base + s.offset) as nat, a.len(), b.len());
    }
    if truth <= k {
        assert(due(a, b, t, k, b.len(), a.len() as int, truth, false));
        let i = choose|i: int|
            0 <= i < ms.len() && reaches(#[trigger] ms[i], base, a.len() as int, truth, false);
        assert(closing_cost(ms[i], remaining) <= truth);
    }
}

} // verus!
