//! The Levenshtein automaton in its nondeterministic form: which states follow
//! a state when one unit of the candidate is read, told by the characteristic
//! vector of that unit alone.

use crate::distance::{make_distance, saturated, Distance};
use crate::edit_distance::edit_distance;
use crate::multistate::{
    canonical, covers, gap, least_cost, least_offset, lowered, MultiState, NFAState,
};
use crate::simulation::{
    lemma_far, lemma_final, lemma_follow, lemma_tracks_start, lemma_tracks_windowed, tracks,
};
use crate::text::to_chars;
use vstd::prelude::*;

verus! {

/// The greatest ceiling an automaton is built for.
pub const MAX_DISTANCE: u8 = 3;

/// Why an automaton could not be made.
#[derive(Clone, Copy, Debug, PartialEq, Eq, Structural)]
pub enum LevenshteinError {
    /// The ceiling is above [`MAX_DISTANCE`].
    InvalidCeiling,
}

/// Bit `p` of a characteristic vector.
pub open spec fn bit_set(chi: u32, p: int) -> bool {
    0 <= p < 32 && (chi >> (p as u32)) & 1u32 == 1u32
}

/// A characteristic vector as the sequence of its lowest `width` bits.
pub open spec fn chi_bits(chi: u32, width: nat) -> Seq<bool> {
    Seq::new(width, |p: int| bit_set(chi, p))
}

/// The characteristic vector of the unit `c` against the `width` units of
/// `query` from `base` on: position `p` tells whether `query[base + p]` is
/// `c`; past the end of the query nothing is.
pub open spec fn window(query: Seq<char>, base: int, c: char, width: nat) -> Seq<bool> {
    Seq::new(width, |p: int| 0 <= base + p < query.len() && query[base + p] == c)
}

/// Whether position `p` lies in the vector and is marked.
pub open spec fn hit(mv: Seq<bool>, p: int) -> bool {
    0 <= p < mv.len() && mv[p]
}

/// The width of a characteristic vector for the ceiling `k`.
pub open spec fn diameter(k: int) -> nat {
    (2 * k + 1) as nat
}

/// Whether `x` follows `s` when a unit with the characteristic vector `mv` is
/// read, under the ceiling `k`.
///
/// A plain state at `(offset, errors)` is followed by the match
/// `(offset + 1, errors)` if position `offset` is marked and, while
/// `errors < k`, by the insertion `(offset, errors + 1)`, the substitution
/// `(offset + 1, errors + 1)`, for each marked position `offset + d` with
/// `1 <= d <= k - errors` the `d` deletions and a match
/// `(offset + d + 1, errors + d)`, and with `damerau`, if `offset + 1` is
/// marked and `offset` is not, the half-done swap at `(offset, errors + 1)`.
/// A half-done swap is followed by `(offset + 2, errors)` alone, if its own
/// position is marked.
pub open spec fn is_successor(s: NFAState, x: NFAState, k: int, damerau: bool, mv: Seq<bool>) -> bool {
    if s.in_transpose {
        hit(mv, s.offset as int) && !x.in_transpose && x.offset == s.offset + 2 && x.distance
            == s.distance
    } else {
        ||| (hit(mv, s.offset as int) && !x.in_transpose && x.offset == s.offset + 1 && x.distance
            == s.distance)
        ||| (s.distance < k && !x.in_transpose && x.offset == s.offset && x.distance == s.distance
            + 1)
        ||| (s.distance < k && !x.in_transpose && x.offset == s.offset + 1 && x.distance
            == s.distance + 1)
        ||| (s.distance < k && !x.in_transpose && x.offset >= s.offset + 2 && x.distance
            == s.distance + (x.offset - s.offset - 1) && x.distance <= k && hit(mv, x.offset - 1))
        ||| (s.distance < k && damerau && x.in_transpose && x.offset == s.offset && x.distance
            == s.distance + 1 && hit(mv, s.offset + 1) && !hit(mv, s.offset as int))
    }
}

/// Every member keeps within the ceiling and looks at no position that a
/// characteristic vector of width `2k + 1` from the set's base does not hold.
pub open spec fn windowed(ms: Seq<NFAState>, k: int) -> bool {
    forall|i: int|
        0 <= i < ms.len() ==> {
            let s = #[trigger] ms[i];
            s.distance <= k && if s.in_transpose {
                s.distance >= 1 && s.offset + 2 <= k + s.distance
            } else {
                s.offset <= k + s.distance
            }
        }
}

/// `to` is the set that follows `from` on a unit with the characteristic
/// vector `mv`: canonical, made of successors of members of `from`, and with
/// every such successor subsumed by one of its members.
#[verifier::opaque]
pub open spec fn steps_to(
    from: Seq<NFAState>,
    to: Seq<NFAState>,
    k: int,
    damerau: bool,
    mv: Seq<bool>,
) -> bool {
    &&& canonical(to)
    &&& forall|y: NFAState| #[trigger]
        to.contains(y) ==> exists|i: int|
            0 <= i < from.len() && is_successor(#[trigger] from[i], y, k, damerau, mv)
    &&& forall|i: int, x: NFAState|
        0 <= i < from.len() && #[trigger] is_successor(from[i], x, k, damerau, mv) ==> covers(
            to,
            x,
        )
}

/// `to` is the shape of the set that follows `from` on a unit with the
/// characteristic vector `mv`, and `delta` is how far its base lies past the
/// base of `from`.
pub open spec fn leads_to(
    from: Seq<NFAState>,
    to: Seq<NFAState>,
    delta: int,
    k: int,
    damerau: bool,
    mv: Seq<bool>,
) -> bool {
    exists|raw: Seq<NFAState>| #[trigger]
        steps_to(from, raw, k, damerau, mv) && lowered(raw, to, delta) && delta == least_offset(
            raw,
        )
}

/// Every member lies as close to the position `center` as its edits allow: a
/// set reached after reading `center` units past its base has this form.
pub open spec fn centered(ms: Seq<NFAState>, center: int, k: int) -> bool {
    forall|i: int|
        0 <= i < ms.len() ==> {
            let s = #[trigger] ms[i];
            s.distance <= k && if s.in_transpose {
                s.distance >= 1 && gap(s.offset + 1, center) <= s.distance - 1
            } else {
                gap(s.offset as int, center) <= s.distance
            }
        }
}

/// A centred set whose least offset is zero keeps within the window.
pub proof fn lemma_centered_windowed(ms: Seq<NFAState>, center: int, k: int)
    requires
        centered(ms, center, k),
        least_offset(ms) == 0,
    ensures
        windowed(ms, k),
{
    if ms.len() > 0 {
        let first = ms[0];
        assert(center <= k);
    }
}

/// A step moves the centre by one.
pub proof fn lemma_centered_step(
    from: Seq<NFAState>,
    to: Seq<NFAState>,
    center: int,
    k: int,
    damerau: bool,
    mv: Seq<bool>,
)
    requires
        centered(from, center, k),
        steps_to(from, to, k, damerau, mv),
    ensures
        centered(to, center + 1, k),
{
    reveal(steps_to);
    assert forall|i: int| 0 <= i < to.len() implies {
        let s = #[trigger] to[i];
        s.distance <= k && if s.in_transpose {
            s.distance >= 1 && gap(s.offset + 1, center + 1) <= s.distance - 1
        } else {
            gap(s.offset as int, center + 1) <= s.distance
        }
    } by {
        assert(to.contains(to[i]));
        let m = choose|m: int|
            0 <= m < from.len() && is_successor(#[trigger] from[m], to[i], k, damerau, mv);
        let s = from[m];
    }
}

/// Lowering the offsets lowers the centre.
pub proof fn lemma_centered_lowered(
    ms: Seq<NFAState>,
    shifted: Seq<NFAState>,
    by: int,
    center: int,
    k: int,
)
    requires
        centered(ms, center, k),
        lowered(ms, shifted, by),
    ensures
        centered(shifted, center - by, k),
{
    assert forall|i: int| 0 <= i < shifted.len() implies {
        let s = #[trigger] shifted[i];
        s.distance <= k && if s.in_transpose {
            s.distance >= 1 && gap(s.offset + 1, center - by) <= s.distance - 1
        } else {
            gap(s.offset as int, center - by) <= s.distance
        }
    } by {
        let s = ms[i];
    }
}

proof fn lemma_set_bit(chi: u32, j: u32, p: u32)
    by (bit_vector)
    requires
        j < 31,
        p < 32,
        chi < (1u32 << j),
    ensures
        (chi | (1u32 << j)) < (1u32 << ((j + 1) as u32)),
        chi < (1u32 << ((j + 1) as u32)),
        p != j ==> (((chi | (1u32 << j)) >> p) & 1u32 == 1u32) == ((chi >> p) & 1u32 == 1u32),
        ((chi | (1u32 << j)) >> j) & 1u32 == 1u32,
        (chi >> j) & 1u32 != 1u32,
{
}

fn extract_bit(chi: u32, pos: u32, width: u32) -> (r: bool)
    requires
        width <= 32,
    ensures
        r == hit(chi_bits(chi, width as nat), pos as int),
{
    pos < width && (chi >> pos) & 1u32 == 1u32
}

/// The characteristic vector of `c` against the `width` units of `query` from
/// `base` on, as a bit mask.
pub fn characteristic_vector(query: &Vec<char>, c: char, base: usize, width: u32) -> (chi: u32)
    requires
        width < 32,
        base <= query.len(),
    ensures
        chi_bits(chi, width as nat) == window(query@, base as int, c, width as nat),
        chi < (1u32 << width),
{
    let mut chi: u32 = 0;
    let mut j: u32 = 0;
    assert(0u32 < (1u32 << 0u32)) by (bit_vector);
    while j < width
        invariant
            width < 32,
            j <= width,
            base <= query.len(),
            chi < (1u32 << j),
            forall|p: int|
                0 <= p < j ==> bit_set(chi, p) == (0 <= base + p < query@.len() && query@[base
                    + p] == c),
        decreases width - j,
    {
        let ghost before = chi;
        let at: usize = j as usize;
        if at < query.len() - base && query[base + at] == c {
            chi = chi | (1u32 << j);
        }
        proof {
            lemma_set_bit(before, j, j);
            assert(bit_set(chi, j as int) == (0 <= base + j < query@.len() && query@[base + j]
                == c));
            assert forall|p: int| 0 <= p < j implies bit_set(chi, p) == bit_set(before, p) by {
                lemma_set_bit(before, j, p as u32);
            }
        }
        j += 1;
    }
    assert(chi_bits(chi, width as nat) =~= window(query@, base as int, c, width as nat));
    chi
}

/// The automaton for one ceiling, with or without the swap of two adjacent
/// units as a single edit.
#[derive(Clone, Copy, Debug)]
pub struct LevenshteinNFA {
    max_distance: u8,
    damerau: bool,
}

impl LevenshteinNFA {
    /// The ceiling as a number.
    pub closed spec fn ceiling(&self) -> u8 {
        self.max_distance
    }

    /// Whether a swap counts as one edit.
    pub closed spec fn transposition(&self) -> bool {
        self.damerau
    }

    /// The ceiling is within [`MAX_DISTANCE`].
    pub open spec fn wf(&self) -> bool {
        self.ceiling() <= MAX_DISTANCE
    }

    /// The automaton for the ceiling `max_distance`; with
    /// `transposition_cost_one` a swap of two adjacent units is one edit.
    /// A ceiling above [`MAX_DISTANCE`] is refused.
    pub fn levenshtein(max_distance: u8, transposition_cost_one: bool) -> (r: Result<
        LevenshteinNFA,
        LevenshteinError,
    >)
        ensures
            max_distance <= MAX_DISTANCE ==> r is Ok && r->Ok_0.wf() && r->Ok_0.ceiling()
                == max_distance && r->Ok_0.transposition() == transposition_cost_one,
            max_distance > MAX_DISTANCE ==> r == Err::<LevenshteinNFA, LevenshteinError>(
                LevenshteinError::InvalidCeiling,
            ),
    {
        if max_distance > MAX_DISTANCE {
            Err(LevenshteinError::InvalidCeiling)
        } else {
            Ok(LevenshteinNFA { max_distance, damerau: transposition_cost_one })
        }
    }

    /// The ceiling.
    pub fn max_distance(&self) -> (k: u8)
        ensures
            k == self.ceiling(),
    {
        self.max_distance
    }

    /// Whether a swap of two adjacent units counts as one edit.
    pub fn damerau(&self) -> (t: bool)
        ensures
            t == self.transposition(),
    {
        self.damerau
    }

    /// The width of the characteristic vectors the automaton reads.
    pub fn multistate_diameter(&self) -> (w: u32)
        requires
            self.wf(),
        ensures
            w == diameter(self.ceiling() as int),
    {
        2 * (self.max_distance as u32) + 1
    }

    /// The set before any unit is read: the start of the query, no edit.
    pub fn initial_states(&self) -> (ms: MultiState)
        ensures
            ms@ == seq![NFAState { offset: 0, distance: 0, in_transpose: false }],
            canonical(ms@),
    {
        let mut ms = MultiState::empty();
        let start = NFAState { offset: 0, distance: 0, in_transpose: false };
        ms.add_state(start);
        proof {
            assert(ms@.len() >= 1) by {
                let w = choose|w: int| 0 <= w < ms@.len() && (#[trigger] ms@[w]).subsumes(start);
            }
            assert forall|i: int| 0 <= i < ms@.len() implies #[trigger] ms@[i] == start by {
                assert(ms@.contains(ms@[i]));
                assert(!Seq::<NFAState>::empty().contains(ms@[i]));
            }
            if ms@.len() > 1 {
                assert(ms@[0].precedes(ms@[1]));
            }
            assert(ms@ =~= seq![start]);
        }
        ms
    }

    /// Adds to `dest` what follows `state` on a unit with the characteristic
    /// vector `chi`.
    fn simple_transition(&self, state: NFAState, chi: u32, dest: &mut MultiState)
        requires
            self.wf(),
            canonical(old(dest)@),
            state.distance <= self.ceiling(),
            state.offset <= 2 * self.ceiling(),
        ensures
            canonical(final(dest)@),
            forall|x: NFAState| covers(old(dest)@, x) ==> covers(final(dest)@, x),
            forall|x: NFAState| #[trigger]
                is_successor(
                    state,
                    x,
                    self.ceiling() as int,
                    self.transposition(),
                    chi_bits(chi, diameter(self.ceiling() as int)),
                ) ==> covers(final(dest)@, x),
            forall|y: NFAState| #[trigger]
                final(dest)@.contains(y) ==> old(dest)@.contains(y) || is_successor(
                    state,
                    y,
                    self.ceiling() as int,
                    self.transposition(),
                    chi_bits(chi, diameter(self.ceiling() as int)),
                ),
    {
        let k = self.max_distance;
        let width: u32 = 2 * (k as u32) + 1;
        let ghost mv = chi_bits(chi, diameter(k as int));
        let ghost start = dest@;
        let here = extract_bit(chi, state.offset, width);
        if state.in_transpose {
            if here {
                dest.add_state(
                    NFAState {
                        offset: state.offset + 2,
                        distance: state.distance,
                        in_transpose: false,
                    },
                );
            }
            return ;
        }
        if here {
            dest.add_state(
                NFAState { offset: state.offset + 1, distance: state.distance, in_transpose: false },
            );
        }
        if state.distance < k {
            dest.add_state(
                NFAState {
                    offset: state.offset,
                    distance: state.distance + 1,
                    in_transpose: false,
                },
            );
            dest.add_state(
                NFAState {
                    offset: state.offset + 1,
                    distance: state.distance + 1,
                    in_transpose: false,
                },
            );
            let ghost middle = dest@;
            let most: u8 = k - state.distance;
            let mut d: u8 = 1;
            while d <= most
                invariant
                    self.wf(),
                    k == self.ceiling(),
                    width == 2 * k + 1,
                    mv == chi_bits(chi, diameter(k as int)),
                    state.distance < k,
                    !state.in_transpose,
                    state.offset <= 2 * k,
                    most == k - state.distance,
                    1 <= d <= most + 1,
                    canonical(dest@),
                    forall|x: NFAState| covers(middle, x) ==> covers(dest@, x),
                    forall|y: NFAState| #[trigger]
                        dest@.contains(y) ==> middle.contains(y) || is_successor(
                            state,
                            y,
                            k as int,
                            self.transposition(),
                            mv,
                        ),
                    forall|x: NFAState|
                        !x.in_transpose && state.offset + 2 <= x.offset < state.offset + 1 + d
                            && x.distance == state.distance + (x.offset - state.offset - 1) && hit(
                            mv,
                            x.offset - 1,
                        ) ==> covers(dest@, x),
                decreases most + 1 - d,
            {
                if extract_bit(chi, state.offset + d as u32, width) {
                    dest.add_state(
                        NFAState {
                            offset: state.offset + 1 + d as u32,
                            distance: state.distance + d,
                            in_transpose: false,
                        },
                    );
                }
                d += 1;
            }
            if self.damerau && !here && extract_bit(chi, state.offset + 1, width) {
                dest.add_state(
                    NFAState {
                        offset: state.offset,
                        distance: state.distance + 1,
                        in_transpose: true,
                    },
                );
            }
        }
    }

    /// Puts into `dest` the set that follows `current` on a unit with the
    /// characteristic vector `chi`, taken from the base of `current`.
    pub fn transition(&self, current: &MultiState, dest: &mut MultiState, chi: u32)
        requires
            self.wf(),
            windowed(current@, self.ceiling() as int),
        ensures
            steps_to(
                current@,
                final(dest)@,
                self.ceiling() as int,
                self.transposition(),
                chi_bits(chi, diameter(self.ceiling() as int)),
            ),
            canonical(final(dest)@),
    {
        dest.clear();
        let ghost k = self.ceiling() as int;
        let ghost mv = chi_bits(chi, diameter(k));
        let n = current.len();
        let mut i: usize = 0;
        while i < n
            invariant
                self.wf(),
                k == self.ceiling(),
                mv == chi_bits(chi, diameter(k)),
                windowed(current@, k),
                n == current@.len(),
                i <= n,
                canonical(dest@),
                forall|y: NFAState| #[trigger]
                    dest@.contains(y) ==> exists|m: int|
                        0 <= m < i && is_successor(
                            #[trigger] current@[m],
                            y,
                            k,
                            self.transposition(),
                            mv,
                        ),
                forall|m: int, x: NFAState|
                    0 <= m < i && #[trigger] is_successor(
                        current@[m],
                        x,
                        k,
                        self.transposition(),
                        mv,
                    ) ==> covers(dest@, x),
            decreases n - i,
        {
            let state = current.get(i);
            let ghost before = dest@;
            assert(state == current@[i as int]);
            self.simple_transition(state, chi, dest);
            proof {
                assert forall|y: NFAState| #[trigger] dest@.contains(y) implies exists|m: int|
                    0 <= m < i + 1 && is_successor(
                        #[trigger] current@[m],
                        y,
                        k,
                        self.transposition(),
                        mv,
                    ) by {
                    if before.contains(y) {
                        let m = choose|m: int|
                            0 <= m < i && is_successor(
                                #[trigger] current@[m],
                                y,
                                k,
                                self.transposition(),
                                mv,
                            );
                        assert(is_successor(current@[m], y, k, self.transposition(), mv));
                    } else {
                        assert(is_successor(current@[i as int], y, k, self.transposition(), mv));
                    }
                }
            }
            i += 1;
        }
        proof {
            reveal(steps_to);
        }
    }

    /// The distance between `query` and `other`, found by running the automaton
    /// itself over `other`: exact up to the ceiling, saturated beyond it.
    pub fn compute_distance(&self, query: &str, other: &str) -> (d: Distance)
        requires
            self.wf(),
        ensures
            d == saturated(
                edit_distance(query@, other@, self.transposition()),
                self.ceiling(),
            ),
    {
        let query_chars = to_chars(query);
        let other_chars = to_chars(other);
        let k = self.max_distance;
        let width = self.multistate_diameter();
        let ghost t = self.transposition();
        let mut current = self.initial_states();
        let mut base: usize = 0;
        let n = other_chars.len();
        let mut j: usize = 0;
        proof {
            lemma_tracks_start(query@, other@, t, k as int);
        }
        while j < n
            invariant
                self.wf(),
                k == self.ceiling(),
                t == self.transposition(),
                width == diameter(k as int),
                n == other_chars@.len(),
                j <= n,
                query_chars@ == query@,
                other_chars@ == other@,
                tracks(current@, base as int, query@, other@, t, k as int, j as nat),
            decreases n - j,
        {
            proof {
                lemma_tracks_windowed(current@, base as int, query@, other@, t, k as int, j as nat);
            }
            let chi = characteristic_vector(&query_chars, other_chars[j], base, width);
            let mut next = MultiState::empty();
            self.transition(&current, &mut next, chi);
            let ghost raw = next@;
            let shift = next.normalize();
            proof {
                lemma_follow(
                    current@,
                    next@,
                    shift as int,
                    base as int,
                    query@,
                    other@,
                    t,
                    k as int,
                    j as nat,
                );
            }
            base = base + shift as usize;
            current = next;
            j += 1;
        }
        let remaining = query_chars.len() - base;
        proof {
            lemma_tracks_windowed(current@, base as int, query@, other@, t, k as int, n as nat);
            lemma_final(current@, base as int, query@, other@, t, k as int);
        }
        if remaining > 2 * (k as usize) {
            proof {
                lemma_far(current@, k as int, remaining as int);
            }
            make_distance(k + 1, k)
        } else {
            current.distance_at(remaining as u32, k)
        }
    }

    /// The distance reported where the candidate ends in `multistate`, for a
    /// query of `query_len` units counted from the base of the set.
    pub fn multistate_distance(&self, multistate: &MultiState, query_len: u32) -> (d: Distance)
        requires
            self.wf(),
        ensures
            d == saturated(
                crate::multistate::least_cost(
                    multistate@,
                    query_len as int,
                    self.ceiling() + 1,
                ) as nat,
                self.ceiling(),
            ),
    {
        multistate.distance_at(query_len, self.max_distance)
    }
}

} // verus!
