//! Sets of automaton states in canonical form: ordered, and free of any state
//! that another member makes redundant.

use crate::distance::{make_distance, saturated, Distance};
use vstd::prelude::*;

verus! {

/// The distance between two positions.
pub open spec fn gap(x: int, y: int) -> int {
    if x <= y {
        y - x
    } else {
        x - y
    }
}

/// One state of the automaton: the query position it looks at, the edits spent
/// so far, and whether it is halfway through swapping the two query units at
/// `offset` and `offset + 1` (the second one has been read, the first is due).
#[derive(Clone, Copy, Debug, PartialEq, Eq, Structural)]
pub struct NFAState {
    pub offset: u32,
    pub distance: u8,
    pub in_transpose: bool,
}

/// Whether the state `s`, its offset counted from `base`, makes a state at
/// `offset` with `errors` edits redundant: whatever the latter can reach, `s`
/// reaches at no greater cost.
pub open spec fn reaches(s: NFAState, base: int, offset: int, errors: int, transposing: bool) -> bool {
    if s.in_transpose {
        transposing && base + s.offset == offset && s.distance <= errors
    } else if transposing {
        s.distance + gap(base + s.offset, offset + 1) + (if base + s.offset == offset + 1 {
            1int
        } else {
            0int
        }) <= errors
    } else {
        s.distance + gap(base + s.offset, offset) <= errors
    }
}

impl NFAState {
    /// The subsumption order: `self` makes `other` redundant.
    pub open spec fn subsumes(self, other: NFAState) -> bool {
        reaches(self, 0, other.offset as int, other.distance as int, other.in_transpose)
    }

    /// The strict order by offset, then edits, then the swap mark.
    pub open spec fn precedes(self, other: NFAState) -> bool {
        self.offset < other.offset || (self.offset == other.offset && (self.distance
            < other.distance || (self.distance == other.distance && !self.in_transpose
            && other.in_transpose)))
    }

    /// Tests the subsumption order.
    pub fn imply(&self, other: NFAState) -> (r: bool)
        ensures
            r == self.subsumes(other),
    {
        if self.in_transpose {
            other.in_transpose && self.offset == other.offset && self.distance <= other.distance
        } else {
            let here: u64 = self.offset as u64;
            let there: u64 = if other.in_transpose {
                other.offset as u64 + 1
            } else {
                other.offset as u64
            };
            let delta: u64 = if here <= there {
                there - here
            } else {
                here - there
            };
            let extra: u64 = if other.in_transpose && here == there {
                1
            } else {
                0
            };
            self.distance as u64 + delta + extra <= other.distance as u64
        }
    }

    /// Tests the strict order.
    pub fn is_before(&self, other: NFAState) -> (r: bool)
        ensures
            r == self.precedes(other),
    {
        self.offset < other.offset || (self.offset == other.offset && (self.distance
            < other.distance || (self.distance == other.distance && !self.in_transpose
            && other.in_transpose)))
    }
}

/// Subsumption is transitive.
pub proof fn lemma_subsumes_transitive(x: NFAState, y: NFAState, z: NFAState)
    requires
        x.subsumes(y),
        y.subsumes(z),
    ensures
        x.subsumes(z),
{
}

/// What a state makes redundant, everything that subsumes it makes redundant.
pub proof fn lemma_reaches_transitive(
    x: NFAState,
    y: NFAState,
    base: int,
    offset: int,
    errors: int,
    transposing: bool,
)
    requires
        x.subsumes(y),
        reaches(y, base, offset, errors, transposing),
    ensures
        reaches(x, base, offset, errors, transposing),
{
}

/// The members are in strictly increasing order.
pub open spec fn sorted(ms: Seq<NFAState>) -> bool {
    forall|i: int, j: int| 0 <= i < j < ms.len() ==> (#[trigger] ms[i]).precedes(#[trigger] ms[j])
}

/// No member subsumes another.
pub open spec fn antichain(ms: Seq<NFAState>) -> bool {
    forall|i: int, j: int|
        0 <= i < ms.len() && 0 <= j < ms.len() && i != j ==> !(#[trigger] ms[i]).subsumes(
            #[trigger] ms[j],
        )
}

/// The canonical form of a set of states.
pub open spec fn canonical(ms: Seq<NFAState>) -> bool {
    sorted(ms) && antichain(ms)
}

/// Some member subsumes `x`.
pub open spec fn covers(ms: Seq<NFAState>, x: NFAState) -> bool {
    exists|i: int| 0 <= i < ms.len() && (#[trigger] ms[i]).subsumes(x)
}

/// `shifted` is `ms` with every offset lowered by `by`.
pub open spec fn lowered(ms: Seq<NFAState>, shifted: Seq<NFAState>, by: int) -> bool {
    &&& shifted.len() == ms.len()
    &&& forall|i: int|
        0 <= i < ms.len() ==> {
            &&& (#[trigger] shifted[i]).offset + by == ms[i].offset
            &&& shifted[i].distance == ms[i].distance
            &&& shifted[i].in_transpose == ms[i].in_transpose
        }
}

/// The least offset among the members, zero where there is none.
pub open spec fn least_offset(ms: Seq<NFAState>) -> int {
    if ms.len() == 0 {
        0
    } else {
        ms[0].offset as int
    }
}

/// The cost at which the plain state `s` ends a query of `target` units: its
/// edits, and one more for each unit between its offset and the end.
pub open spec fn closing_cost(s: NFAState, target: int) -> int {
    s.distance + gap(s.offset as int, target)
}

/// The least closing cost among the plain members, `cap` where none is below it.
pub open spec fn least_cost(ms: Seq<NFAState>, target: int, cap: int) -> int
    decreases ms.len(),
{
    if ms.len() == 0 {
        cap
    } else {
        let rest = least_cost(ms.drop_last(), target, cap);
        let s = ms.last();
        if !s.in_transpose && closing_cost(s, target) < rest {
            closing_cost(s, target)
        } else {
            rest
        }
    }
}

/// The fewest edits among the members, `cap` where none is below it.
pub open spec fn least_error(ms: Seq<NFAState>, cap: int) -> int
    decreases ms.len(),
{
    if ms.len() == 0 {
        cap
    } else {
        let rest = least_error(ms.drop_last(), cap);
        if ms.last().distance < rest {
            ms.last().distance as int
        } else {
            rest
        }
    }
}

/// The least closing cost is below every plain member's and, unless it is the
/// cap, is some plain member's.
pub proof fn lemma_least_cost(ms: Seq<NFAState>, target: int, cap: int)
    ensures
        least_cost(ms, target, cap) <= cap,
        0 <= cap ==> 0 <= least_cost(ms, target, cap),
        forall|i: int|
            0 <= i < ms.len() && !(#[trigger] ms[i]).in_transpose ==> least_cost(ms, target, cap)
                <= closing_cost(ms[i], target),
        least_cost(ms, target, cap) < cap ==> exists|i: int|
            0 <= i < ms.len() && !(#[trigger] ms[i]).in_transpose && closing_cost(ms[i], target)
                == least_cost(ms, target, cap),
    decreases ms.len(),
{
    if ms.len() > 0 {
        let rest = ms.drop_last();
        lemma_least_cost(rest, target, cap);
        assert forall|i: int| 0 <= i < ms.len() && !(#[trigger] ms[i]).in_transpose implies least_cost(
            ms,
            target,
            cap,
        ) <= closing_cost(ms[i], target) by {
            if i < ms.len() - 1 {
                assert(rest[i] == ms[i]);
            }
        }
        if least_cost(ms, target, cap) < cap {
            if least_cost(ms, target, cap) == least_cost(rest, target, cap) {
                let i = choose|i: int|
                    0 <= i < rest.len() && !(#[trigger] rest[i]).in_transpose && closing_cost(
                        rest[i],
                        target,
                    ) == least_cost(rest, target, cap);
                assert(ms[i] == rest[i]);
            } else {
                assert(ms[ms.len() - 1] == ms.last());
            }
        }
    }
}

/// A canonical set of automaton states.
#[derive(Debug)]
pub struct MultiState {
    states: Vec<NFAState>,
}

impl View for MultiState {
    type V = Seq<NFAState>;

    closed spec fn view(&self) -> Seq<NFAState> {
        self.states@
    }
}

impl MultiState {
    /// The set with no state: the dead end.
    pub fn empty() -> (ms: MultiState)
        ensures
            ms@ == Seq::<NFAState>::empty(),
            canonical(ms@),
    {
        MultiState { states: Vec::new() }
    }

    /// The members, in order.
    pub fn states(&self) -> (v: &Vec<NFAState>)
        ensures
            v@ == self@,
    {
        &self.states
    }

    /// The number of members.
    pub fn len(&self) -> (n: usize)
        ensures
            n == self@.len(),
    {
        self.states.len()
    }

    /// The member at the place `i`.
    pub fn get(&self, i: usize) -> (s: NFAState)
        requires
            i < self@.len(),
        ensures
            s == self@[i as int],
    {
        self.states[i]
    }

    /// Drops every member.
    pub fn clear(&mut self)
        ensures
            final(self)@ == Seq::<NFAState>::empty(),
            canonical(final(self)@),
    {
        self.states = Vec::new();
    }

    /// An independent copy.
    pub fn duplicate(&self) -> (copy: MultiState)
        ensures
            copy@ == self@,
    {
        let mut states: Vec<NFAState> = Vec::new();
        let n = self.states.len();
        let mut i: usize = 0;
        while i < n
            invariant
                n == self.states.len(),
                i <= n,
                states@ == self.states@.take(i as int),
            decreases n - i,
        {
            states.push(self.states[i]);
            assert(self.states@.take(i + 1) =~= self.states@.take(i as int).push(
                self.states@[i as int],
            ));
            i += 1;
        }
        assert(self.states@.take(n as int) =~= self.states@);
        MultiState { states }
    }

    /// Whether both hold the same members.
    pub fn same_as(&self, other: &MultiState) -> (r: bool)
        ensures
            r == (self@ == other@),
    {
        let n = self.states.len();
        if other.states.len() != n {
            return false;
        }
        let mut i: usize = 0;
        while i < n
            invariant
                n == self.states.len(),
                n == other.states.len(),
                i <= n,
                forall|j: int| 0 <= j < i ==> self.states@[j] == other.states@[j],
            decreases n - i,
        {
            if !(self.states[i] == other.states[i]) {
                return false;
            }
            i += 1;
        }
        assert(self.states@ =~= other.states@);
        true
    }

    /// Inserts `new_state` and prunes: a state that a member subsumes is not
    /// taken in, and the members that the new state subsumes leave.
    pub fn add_state(&mut self, new_state: NFAState)
        requires
            canonical(old(self)@),
        ensures
            canonical(final(self)@),
            covers(final(self)@, new_state),
            forall|x: NFAState| covers(old(self)@, x) ==> covers(final(self)@, x),
            forall|y: NFAState| #[trigger]
                final(self)@.contains(y) ==> old(self)@.contains(y) || y == new_state,
    {
        let n = self.states.len();
        let mut i: usize = 0;
        while i < n
            invariant
                *self == *old(self),
                canonical(self.states@),
                n == self.states.len(),
                i <= n,
                forall|j: int| 0 <= j < i ==> !(#[trigger] self.states@[j]).subsumes(new_state),
            decreases n - i,
        {
            if self.states[i].imply(new_state) {
                assert(self@[i as int].subsumes(new_state));
                return ;
            }
            i += 1;
        }
        let ghost before = self.states@;
        let mut kept: Vec<NFAState> = Vec::new();
        let mut placed = false;
        i = 0;
        while i < n
            invariant
                n == self.states.len(),
                i <= n,
                before == self.states@,
                canonical(before),
                forall|j: int| 0 <= j < n ==> !(#[trigger] before[j]).subsumes(new_state),
                sorted(kept@),
                forall|j: int|
                    0 <= j < kept@.len() ==> (#[trigger] kept@[j]) == new_state || (before.contains(
                        kept@[j],
                    ) && !new_state.subsumes(kept@[j])),
                forall|j: int, m: int|
                    0 <= j < kept@.len() && i <= m < n ==> (#[trigger] kept@[j]).precedes(
                        #[trigger] before[m],
                    ),
                !placed ==> forall|j: int|
                    0 <= j < kept@.len() ==> (#[trigger] kept@[j]).precedes(new_state),
                placed ==> kept@.contains(new_state),
                forall|m: int|
                    0 <= m < i ==> kept@.contains(#[trigger] before[m]) || new_state.subsumes(
                        before[m],
                    ),
            decreases n - i,
        {
            let s = self.states[i];
            assert(s == before[i as int]);
            if !placed && new_state.is_before(s) {
                let ghost prev = kept@;
                kept.push(new_state);
                placed = true;
                assert(kept@[prev.len() as int] == new_state);
                assert forall|m: int| 0 <= m < i implies kept@.contains(#[trigger] before[m])
                    || new_state.subsumes(before[m]) by {
                    if prev.contains(before[m]) {
                        let w = choose|w: int| 0 <= w < prev.len() && prev[w] == before[m];
                        assert(kept@[w] == before[m]);
                    }
                }
            }
            if !new_state.imply(s) {
                let ghost prev = kept@;
                kept.push(s);
                assert(kept@[prev.len() as int] == s);
                assert(before.contains(s));
                assert forall|m: int| 0 <= m < i + 1 implies kept@.contains(#[trigger] before[m])
                    || new_state.subsumes(before[m]) by {
                    if m < i && prev.contains(before[m]) {
                        let w = choose|w: int| 0 <= w < prev.len() && prev[w] == before[m];
                        assert(kept@[w] == before[m]);
                    }
                }
                proof {
                    if placed {
                        let w = choose|w: int| 0 <= w < prev.len() && prev[w] == new_state;
                        assert(kept@[w] == new_state);
                    }
                }
            }
            i += 1;
        }
        if !placed {
            let ghost prev = kept@;
            kept.push(new_state);
            assert(kept@[prev.len() as int] == new_state);
            assert forall|m: int| 0 <= m < n implies kept@.contains(#[trigger] before[m])
                || new_state.subsumes(before[m]) by {
                if prev.contains(before[m]) {
                    let w = choose|w: int| 0 <= w < prev.len() && prev[w] == before[m];
                    assert(kept@[w] == before[m]);
                }
            }
        }
        proof {
            let after = kept@;
            assert forall|p: int, q: int|
                0 <= p < after.len() && 0 <= q < after.len() && p != q implies !(
            #[trigger] after[p]).subsumes(#[trigger] after[q]) by {
                if p < q {
                    assert(after[p].precedes(after[q]));
                } else {
                    assert(after[q].precedes(after[p]));
                }
                if after[p] != new_state && after[q] != new_state {
                    let mp = choose|m: int| 0 <= m < before.len() && before[m] == after[p];
                    let mq = choose|m: int| 0 <= m < before.len() && before[m] == after[q];
                    assert(!before[mp].subsumes(before[mq]));
                } else if after[p] != new_state {
                    let mp = choose|m: int| 0 <= m < before.len() && before[m] == after[p];
                    assert(!before[mp].subsumes(new_state));
                }
            }
            let at = choose|w: int| 0 <= w < after.len() && after[w] == new_state;
            assert(after[at].subsumes(new_state));
            assert forall|x: NFAState| covers(before, x) implies covers(after, x) by {
                let m = choose|m: int| 0 <= m < before.len() && (#[trigger] before[m]).subsumes(x);
                if after.contains(before[m]) {
                    let w = choose|w: int| 0 <= w < after.len() && after[w] == before[m];
                    assert(after[w].subsumes(x));
                } else {
                    lemma_subsumes_transitive(new_state, before[m], x);
                    assert(after[at].subsumes(x));
                }
            }
        }
        self.states = kept;
    }

    /// Shifts every offset down by the least one, which it returns: what is
    /// left is the shape of the set, the same wherever in the query it stood.
    pub fn normalize(&mut self) -> (shift: u32)
        requires
            canonical(old(self)@),
        ensures
            canonical(final(self)@),
            shift == least_offset(old(self)@),
            lowered(old(self)@, final(self)@, shift as int),
    {
        let n = self.states.len();
        if n == 0 {
            return 0;
        }
        let shift = self.states[0].offset;
        let ghost before = self.states@;
        let mut moved: Vec<NFAState> = Vec::new();
        let mut i: usize = 0;
        while i < n
            invariant
                n == self.states.len(),
                n > 0,
                i <= n,
                before == self.states@,
                sorted(before),
                shift == before[0].offset,
                lowered(before.take(i as int), moved@, shift as int),
            decreases n - i,
        {
            let s = self.states[i];
            assert(i > 0 ==> before[0].precedes(before[i as int]));
            moved.push(
                NFAState {
                    offset: s.offset - shift,
                    distance: s.distance,
                    in_transpose: s.in_transpose,
                },
            );
            i += 1;
        }
        proof {
            assert(before.take(n as int) =~= before);
            let after = moved@;
            assert forall|p: int, q: int| 0 <= p < q < after.len() implies (
            #[trigger] after[p]).precedes(#[trigger] after[q]) by {
                assert(before[p].precedes(before[q]));
            }
            assert forall|p: int, q: int|
                0 <= p < after.len() && 0 <= q < after.len() && p != q implies !(
            #[trigger] after[p]).subsumes(#[trigger] after[q]) by {
                assert(!before[p].subsumes(before[q]));
            }
        }
        self.states = moved;
        shift
    }

    /// The fewest edits among the members; one more than the ceiling where
    /// there is none within it.
    pub fn min_error(&self, max_distance: u8) -> (e: u8)
        requires
            max_distance < u8::MAX,
        ensures
            e == least_error(self@, max_distance + 1),
    {
        let n = self.states.len();
        let mut best: u8 = max_distance + 1;
        let mut i: usize = 0;
        while i < n
            invariant
                n == self.states.len(),
                i <= n,
                best == least_error(self.states@.take(i as int), max_distance + 1),
            decreases n - i,
        {
            assert(self.states@.take(i + 1).drop_last() =~= self.states@.take(i as int));
            if self.states[i].distance < best {
                best = self.states[i].distance;
            }
            i += 1;
        }
        assert(self.states@.take(n as int) =~= self.states@);
        best
    }

    /// The distance reported where the candidate ends in this set, with
    /// `query_len_remaining` query units from the set's base to the query's
    /// end: the least closing cost of a plain member, saturated.
    pub fn distance_at(&self, query_len_remaining: u32, max_distance: u8) -> (d: Distance)
        requires
            max_distance < u8::MAX,
        ensures
            d == saturated(
                least_cost(self@, query_len_remaining as int, max_distance + 1) as nat,
                max_distance,
            ),
    {
        let n = self.states.len();
        let mut best: u8 = max_distance + 1;
        let mut i: usize = 0;
        while i < n
            invariant
                n == self.states.len(),
                i <= n,
                best <= max_distance + 1,
                best == least_cost(
                    self.states@.take(i as int),
                    query_len_remaining as int,
                    max_distance + 1,
                ),
            decreases n - i,
        {
            assert(self.states@.take(i + 1).drop_last() =~= self.states@.take(i as int));
            let s = self.states[i];
            if !s.in_transpose {
                let far: u64 = if s.offset <= query_len_remaining {
                    (query_len_remaining - s.offset) as u64
                } else {
                    (s.offset - query_len_remaining) as u64
                };
                let cost: u64 = s.distance as u64 + far;
                if cost < best as u64 {
                    best = cost as u8;
                }
            }
            i += 1;
        }
        assert(self.states@.take(n as int) =~= self.states@);
        make_distance(best, max_distance)
    }
}

} // verus!
