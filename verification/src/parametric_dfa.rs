//! The parametric automaton: the shapes that sets of states can take, found
//! once for a ceiling, and for each shape and characteristic vector the shape
//! that follows and how far the base moves.

use crate::distance::{make_distance, saturated, Distance};
use crate::edit_distance::edit_distance;
use crate::levenshtein_nfa::{
    centered, characteristic_vector, chi_bits, diameter, leads_to, lemma_centered_lowered,
    lemma_centered_step, lemma_centered_windowed, windowed, LevenshteinNFA, MAX_DISTANCE,
};
use crate::multistate::{canonical, least_cost, least_offset, lemma_least_cost, MultiState, NFAState};
use crate::shape_count::{lemma_flat, lemma_shapes_bounded, lemma_windowed_rankable, ranks};
use crate::simulation::{lemma_far, lemma_final, lemma_follow, lemma_tracks_start, plain, tracks};
use crate::text::to_chars;
use vstd::arithmetic::power2::pow2;
use vstd::prelude::*;

verus! {

/// A state of the parametric automaton: a shape, and the query position that
/// the shape's offsets are counted from.
#[derive(Clone, Copy, Debug, PartialEq, Eq, Structural)]
pub struct ParametricState {
    pub shape_id: usize,
    pub offset: usize,
}

impl ParametricState {
    /// The dead end.
    pub fn empty() -> (s: ParametricState)
        ensures
            s.shape_id == 1,
            s.offset == 0,
    {
        ParametricState { shape_id: 1, offset: 0 }
    }

    /// Whether this is the dead end, which no candidate leaves.
    pub fn is_dead_end(&self) -> (r: bool)
        ensures
            r == (self.shape_id == 1),
    {
        self.shape_id == 1
    }
}

/// An entry of the table: the shape that follows, and how far the base moves.
#[derive(Clone, Copy, Debug, PartialEq, Eq, Structural)]
pub struct Transition {
    pub dest_shape_id: usize,
    pub delta_offset: u32,
}

impl Transition {
    /// The state that follows `state`; the base never moves past `limit`.
    pub fn apply(&self, state: ParametricState, limit: usize) -> (next: ParametricState)
        requires
            state.offset <= limit,
        ensures
            next.shape_id == self.dest_shape_id,
            next.offset == if state.offset + self.delta_offset <= limit {
                state.offset + self.delta_offset
            } else {
                limit as int
            },
    {
        let room = limit - state.offset;
        let offset = if (self.delta_offset as usize) <= room {
            state.offset + self.delta_offset as usize
        } else {
            limit
        };
        ParametricState { shape_id: self.dest_shape_id, offset }
    }
}

/// The shapes that an index holds, by id.
pub open spec fn shapes_of(index: Seq<MultiState>) -> Seq<Seq<NFAState>> {
    Seq::new(index.len(), |i: int| index[i]@)
}

/// The entry of a flat table for the shape `p` and the vector `chi`.
pub open spec fn entry_at(table: Seq<Transition>, stride: int, p: int, chi: int) -> Transition {
    table[p * stride + chi]
}

/// The entry of the flat table of closing costs for the shape `p` and
/// `remaining` query units.
pub open spec fn cost_at(costs: Seq<u8>, width: int, p: int, remaining: int) -> u8 {
    costs[p * width + remaining]
}

/// The number of characteristic vectors of the width that goes with `k`.
pub open spec fn columns(k: int) -> int {
    (1u32 << ((2 * k + 1) as u32)) as int
}

/// The shapes are canonical, based at zero, within the window and distinct;
/// the first is the start and the second the dead end.
pub open spec fn shapes_ok(shapes: Seq<Seq<NFAState>>, k: int) -> bool {
    &&& shapes.len() >= 2
    &&& shapes[0] == seq![plain(0, 0)]
    &&& shapes[1] == Seq::<NFAState>::empty()
    &&& forall|p: int|
        0 <= p < shapes.len() ==> canonical(#[trigger] shapes[p]) && least_offset(shapes[p]) == 0
            && windowed(shapes[p], k)
    &&& forall|p: int, q: int|
        0 <= p < shapes.len() && 0 <= q < shapes.len() && p != q ==> #[trigger] shapes[p]
            != #[trigger] shapes[q]
}

/// The entry `tr` is right for the shape `p` and the vector `chi`.
pub open spec fn entry_ok(
    shapes: Seq<Seq<NFAState>>,
    tr: Transition,
    p: int,
    chi: int,
    k: int,
    t: bool,
) -> bool {
    &&& tr.dest_shape_id < shapes.len()
    &&& leads_to(
        shapes[p],
        shapes[tr.dest_shape_id as int],
        tr.delta_offset as int,
        k,
        t,
        chi_bits(chi as u32, diameter(k)),
    )
}

/// The first `rows` rows of the table are right.
pub open spec fn table_ok(
    shapes: Seq<Seq<NFAState>>,
    table: Seq<Transition>,
    stride: int,
    rows: int,
    k: int,
    t: bool,
) -> bool {
    forall|p: int, chi: int|
        0 <= p < rows && 0 <= chi < stride ==> entry_ok(
            shapes,
            #[trigger] entry_at(table, stride, p, chi),
            p,
            chi,
            k,
            t,
        )
}

/// The first `rows` rows of the closing costs are right.
pub open spec fn costs_ok(
    shapes: Seq<Seq<NFAState>>,
    costs: Seq<u8>,
    width: int,
    rows: int,
    k: int,
) -> bool {
    forall|p: int, r: int|
        0 <= p < rows && 0 <= r < width ==> #[trigger] cost_at(costs, width, p, r) == least_cost(
            shapes[p],
            r,
            k + 1,
        )
}

/// The first `upto` entries of the table lead to shapes before `p` only.
pub open spec fn only_earlier(table: Seq<Transition>, upto: int, p: int) -> bool {
    forall|e: int| 0 <= e < upto ==> (#[trigger] table[e]).dest_shape_id < p
}

/// The shape `p` follows an earlier shape on some vector, and is met there
/// for the first time: an entry of the table, in a row before its own, leads
/// to it, and the entries before that one lead to earlier shapes.
pub open spec fn found_from(table: Seq<Transition>, stride: int, p: int) -> bool {
    exists|q: int, chi: int|
        0 <= q < p && 0 <= chi < stride && q * stride + chi < table.len() && (#[trigger] entry_at(
            table,
            stride,
            q,
            chi,
        )).dest_shape_id == p && only_earlier(table, q * stride + chi, p)
}

/// Every shape but the start and the dead end follows an earlier shape: the
/// shapes are those that can be reached, and no others, numbered in the
/// order in which the rows of the table meet them.
pub open spec fn all_found(table: Seq<Transition>, stride: int, shapes: int) -> bool {
    forall|p: int| 2 <= p < shapes ==> #[trigger] found_from(table, stride, p)
}

proof fn lemma_found_grows(
    table: Seq<Transition>,
    more: Seq<Transition>,
    stride: int,
    p: int,
)
    requires
        found_from(table, stride, p),
        table.len() <= more.len(),
        forall|i: int| 0 <= i < table.len() ==> more[i] == table[i],
    ensures
        found_from(more, stride, p),
{
    let (q, chi) = choose|q: int, chi: int|
        0 <= q < p && 0 <= chi < stride && q * stride + chi < table.len() && (#[trigger] entry_at(
            table,
            stride,
            q,
            chi,
        )).dest_shape_id == p && only_earlier(table, q * stride + chi, p);
    assert(0 <= q * stride + chi) by (nonlinear_arith)
        requires
            0 <= q,
            0 <= chi,
            0 < stride,
    ;
    assert(entry_at(more, stride, q, chi).dest_shape_id == p);
    assert forall|e: int| 0 <= e < q * stride + chi implies (#[trigger] more[e]).dest_shape_id
        < p by {
        assert(table[e].dest_shape_id < p);
    }
}

/// `longer` holds the shapes of `index`, under the same ids, and maybe more.
pub open spec fn extends(index: Seq<MultiState>, longer: Seq<MultiState>) -> bool {
    &&& index.len() <= longer.len()
    &&& forall|i: int| 0 <= i < index.len() ==> (#[trigger] longer[i])@ == index[i]@
}

/// Each shape of the index is centred where the ghost list says.
pub open spec fn centers_ok(index: Seq<MultiState>, centers: Seq<int>, k: int) -> bool {
    &&& centers.len() == index.len()
    &&& forall|p: int| 0 <= p < index.len() ==> centered((#[trigger] index[p])@, centers[p], k)
}

proof fn lemma_table_grows(
    index: Seq<MultiState>,
    longer: Seq<MultiState>,
    table: Seq<Transition>,
    more: Seq<Transition>,
    stride: int,
    rows: int,
    k: int,
    t: bool,
)
    requires
        extends(index, longer),
        0 <= rows <= index.len(),
        0 <= stride,
        table_ok(shapes_of(index), table, stride, rows, k, t),
        rows * stride <= table.len() <= more.len(),
        forall|i: int| 0 <= i < table.len() ==> more[i] == table[i],
    ensures
        table_ok(shapes_of(longer), more, stride, rows, k, t),
{
    assert forall|p: int, chi: int| 0 <= p < rows && 0 <= chi < stride implies entry_ok(
        shapes_of(longer),
        #[trigger] entry_at(more, stride, p, chi),
        p,
        chi,
        k,
        t,
    ) by {
        lemma_flat(p, chi, rows, stride);
        let tr = entry_at(table, stride, p, chi);
        assert(entry_ok(shapes_of(index), tr, p, chi, k, t));
        assert(shapes_of(longer)[p] == shapes_of(index)[p]);
        assert(shapes_of(longer)[tr.dest_shape_id as int] == shapes_of(index)[tr.dest_shape_id as int]);
    }
}

/// The id of the shape `ms` in the index, which takes it in if it is new.
fn get_or_allocate(index: &mut Vec<MultiState>, ms: &MultiState) -> (id: usize)
    ensures
        id < final(index)@.len(),
        final(index)@[id as int]@ == ms@,
        extends(old(index)@, final(index)@),
        final(index)@.len() == old(index)@.len() || (final(index)@.len() == old(index)@.len() + 1
            && id == old(index)@.len() && forall|i: int|
            0 <= i < old(index)@.len() ==> (#[trigger] old(index)@[i])@ != ms@),
{
    let n = index.len();
    let mut i: usize = 0;
    while i < n
        invariant
            *index == *old(index),
            n == index.len(),
            i <= n,
            forall|j: int| 0 <= j < i ==> (#[trigger] index@[j])@ != ms@,
        decreases n - i,
    {
        if index[i].same_as(ms) {
            return i;
        }
        i += 1;
    }
    index.push(ms.duplicate());
    n
}

/// Finds what follows the shape `state_id` on the vector `chi`, and takes the
/// shape that follows into the index.
fn expand(
    nfa: &LevenshteinNFA,
    index: &mut Vec<MultiState>,
    Ghost(centers): Ghost<Seq<int>>,
    state_id: usize,
    chi: u32,
) -> (r: (Transition, Ghost<Seq<int>>))
    requires
        nfa.wf(),
        shapes_ok(shapes_of(old(index)@), nfa.ceiling() as int),
        centers_ok(old(index)@, centers, nfa.ceiling() as int),
        state_id < old(index)@.len(),
    ensures
        shapes_ok(shapes_of(final(index)@), nfa.ceiling() as int),
        centers_ok(final(index)@, r.1@, nfa.ceiling() as int),
        extends(old(index)@, final(index)@),
        final(index)@.len() <= pow2(ranks()),
        final(index)@.len() == old(index)@.len() || (final(index)@.len() == old(index)@.len() + 1
            && r.0.dest_shape_id == old(index)@.len()),
        entry_ok(
            shapes_of(final(index)@),
            r.0,
            state_id as int,
            chi as int,
            nfa.ceiling() as int,
            nfa.transposition(),
        ),
{
    let ghost k = nfa.ceiling() as int;
    let ghost before = index@;
    let ghost from = index@[state_id as int]@;
    assert(from == shapes_of(index@)[state_id as int]);
    let mut dest = MultiState::empty();
    nfa.transition(&index[state_id], &mut dest, chi);
    let ghost raw = dest@;
    let shift = dest.normalize();
    let ghost center = centers[state_id as int] + 1 - shift;
    proof {
        lemma_centered_step(
            from,
            raw,
            centers[state_id as int],
            k,
            nfa.transposition(),
            chi_bits(chi, diameter(k)),
        );
        lemma_centered_lowered(raw, dest@, shift as int, centers[state_id as int] + 1, k);
        lemma_centered_windowed(dest@, center, k);
    }
    let dest_id = get_or_allocate(index, &dest);
    let ghost centers = if index@.len() == before.len() {
        centers
    } else {
        centers.push(center)
    };
    proof {
        let shapes = shapes_of(index@);
        assert forall|p: int| 0 <= p < shapes.len() implies canonical(#[trigger] shapes[p])
            && least_offset(shapes[p]) == 0 && windowed(shapes[p], k) by {
            if p < before.len() {
                assert(shapes[p] == shapes_of(before)[p]);
            }
        }
        assert forall|p: int, q: int|
            0 <= p < shapes.len() && 0 <= q < shapes.len() && p != q implies #[trigger] shapes[p]
            != #[trigger] shapes[q] by {
            if p < before.len() {
                assert(shapes[p] == shapes_of(before)[p]);
            }
            if q < before.len() {
                assert(shapes[q] == shapes_of(before)[q]);
            }
        }
        assert(shapes[0] == shapes_of(before)[0]);
        assert(shapes[1] == shapes_of(before)[1]);
        assert forall|p: int| 0 <= p < shapes.len() implies crate::multistate::sorted(
            #[trigger] shapes[p],
        ) && crate::shape_count::rankable(shapes[p]) by {
            lemma_windowed_rankable(shapes[p], k);
        }
        lemma_shapes_bounded(shapes);
        assert(shapes[state_id as int] == from);
        assert(leads_to(
            from,
            shapes[dest_id as int],
            shift as int,
            k,
            nfa.transposition(),
            chi_bits(chi, diameter(k)),
        ));
    }
    (Transition { dest_shape_id: dest_id, delta_offset: shift }, Ghost(centers))
}

/// The parametric automaton for one ceiling.
pub struct ParametricDFA {
    distance: Vec<u8>,
    transitions: Vec<Transition>,
    max_distance: u8,
    damerau: bool,
    transition_stride: usize,
    diameter: usize,
    shapes: Ghost<Seq<Seq<NFAState>>>,
}

impl ParametricDFA {
    /// The ceiling as a number.
    pub closed spec fn ceiling(&self) -> u8 {
        self.max_distance
    }

    /// Whether a swap counts as one edit.
    pub closed spec fn transposition(&self) -> bool {
        self.damerau
    }

    /// The shapes, by id.
    pub closed spec fn shapes(&self) -> Seq<Seq<NFAState>> {
        self.shapes@
    }

    /// The flat table of transitions, a row of [`columns`] entries for each shape.
    pub closed spec fn table(&self) -> Seq<Transition> {
        self.transitions@
    }

    /// The flat table of closing costs, a row of `2k + 1` entries for each shape.
    pub closed spec fn costs(&self) -> Seq<u8> {
        self.distance@
    }

    /// The width of the rows is what the ceiling asks for.
    pub closed spec fn sized(&self) -> bool {
        &&& self.diameter == 2 * self.max_distance + 1
        &&& self.transition_stride == columns(self.max_distance as int)
        &&& 0 < self.transition_stride <= 128
    }

    /// The table is total and right: every shape has, for every characteristic
    /// vector, the shape that follows it and the move of the base; and for
    /// every count of query units left within the window its closing cost.
    pub open spec fn wf(&self) -> bool {
        let k = self.ceiling() as int;
        &&& self.ceiling() <= MAX_DISTANCE
        &&& self.sized()
        &&& 0 < columns(k) <= 128
        &&& shapes_ok(self.shapes(), k)
        &&& self.table().len() == self.shapes().len() * columns(k)
        &&& table_ok(self.shapes(), self.table(), columns(k), self.shapes().len() as int, k, self.transposition())
        &&& all_found(self.table(), columns(k), self.shapes().len() as int)
        &&& self.costs().len() == self.shapes().len() * (2 * k + 1)
        &&& costs_ok(self.shapes(), self.costs(), 2 * k + 1, self.shapes().len() as int, k)
    }

    /// The dead end is left on no vector, and the base stays where it is.
    pub proof fn lemma_dead_end_loops(&self, chi: int)
        requires
            self.wf(),
            0 <= chi < columns(self.ceiling() as int),
        ensures
            entry_at(self.table(), columns(self.ceiling() as int), 1, chi) == (Transition {
                dest_shape_id: 1,
                delta_offset: 0,
            }),
    {
        let k = self.ceiling() as int;
        let tr = entry_at(self.table(), columns(k), 1, chi);
        let mv = chi_bits(chi as u32, diameter(k));
        assert(entry_ok(self.shapes(), tr, 1, chi, k, self.transposition()));
        let to = self.shapes()[tr.dest_shape_id as int];
        let raw = choose|raw: Seq<NFAState>| #[trigger]
            crate::levenshtein_nfa::steps_to(self.shapes()[1], raw, k, self.transposition(), mv)
                && crate::multistate::lowered(raw, to, tr.delta_offset as int) && tr.delta_offset
                == least_offset(raw);
        assert(raw.len() == 0) by {
            reveal(crate::levenshtein_nfa::steps_to);
            if raw.len() > 0 {
                assert(raw.contains(raw[0]));
            }
        }
        assert(to =~= self.shapes()[1]);
    }

    /// The ceiling.
    pub fn max_distance(&self) -> (k: u8)
        ensures
            k == self.ceiling(),
    {
        self.max_distance
    }

    /// Whether a swap of two adjacent units counts as one edit.
    pub fn damerau(&self) -> (t: bool)
        ensures
            t == self.transposition(),
    {
        self.damerau
    }

    /// The start: the start shape at the start of the query.
    pub fn initial_state() -> (s: ParametricState)
        ensures
            s.shape_id == 0,
            s.offset == 0,
    {
        ParametricState { shape_id: 0, offset: 0 }
    }

    /// The number of shapes.
    pub fn num_states(&self) -> (n: usize)
        requires
            self.wf(),
        ensures
            n == self.shapes().len(),
    {
        proof {
            vstd::arithmetic::div_mod::lemma_div_by_multiple(
                self.shapes().len() as int,
                self.transition_stride as int,
            );
        }
        self.transitions.len() / self.transition_stride
    }

    /// The entry for `state` and the characteristic vector `chi`.
    pub fn transition(&self, state: ParametricState, chi: u32) -> (tr: Transition)
        requires
            self.wf(),
            state.shape_id < self.shapes().len(),
            chi < columns(self.ceiling() as int),
        ensures
            tr == entry_at(
                self.table(),
                columns(self.ceiling() as int),
                state.shape_id as int,
                chi as int,
            ),
            entry_ok(
                self.shapes(),
                tr,
                state.shape_id as int,
                chi as int,
                self.ceiling() as int,
                self.transposition(),
            ),
    {
        proof {
            lemma_flat(
                state.shape_id as int,
                chi as int,
                self.shapes().len() as int,
                self.transition_stride as int,
            );
            assert(self.transition_stride * state.shape_id == state.shape_id
                * self.transition_stride) by (nonlinear_arith);
        }
        let size = self.transitions.len();
        let tr = self.transitions[self.transition_stride * state.shape_id + chi as usize];
        proof {
            let k = self.ceiling() as int;
            let e = entry_at(self.table(), columns(k), state.shape_id as int, chi as int);
            assert(tr == e);
            assert(entry_ok(
                self.shapes(),
                e,
                state.shape_id as int,
                chi as int,
                k,
                self.transposition(),
            ));
        }
        tr
    }

    /// The distance reported where the candidate ends in `state`, for a query
    /// of `query_len` units.
    pub fn distance(&self, state: ParametricState, query_len: usize) -> (d: Distance)
        requires
            self.wf(),
            state.shape_id < self.shapes().len(),
            state.offset <= query_len,
        ensures
            d == saturated(
                least_cost(
                    self.shapes()[state.shape_id as int],
                    query_len - state.offset,
                    self.ceiling() + 1,
                ) as nat,
                self.ceiling(),
            ),
    {
        let ghost k = self.ceiling() as int;
        let ghost shape = self.shapes()[state.shape_id as int];
        let remaining: usize = query_len - state.offset;
        proof {
            lemma_least_cost(shape, remaining as int, k + 1);
        }
        if state.is_dead_end() || remaining >= self.diameter {
            proof {
                if remaining >= self.diameter {
                    lemma_far(shape, k, remaining as int);
                }
            }
            make_distance(self.max_distance + 1u8, self.max_distance)
        } else {
            proof {
                lemma_flat(
                    state.shape_id as int,
                    remaining as int,
                    self.shapes().len() as int,
                    self.diameter as int,
                );
                assert(self.diameter * state.shape_id == state.shape_id * self.diameter)
                    by (nonlinear_arith);
                assert(self.distance@[state.shape_id * self.diameter + remaining] == cost_at(
                    self.costs(),
                    2 * k + 1,
                    state.shape_id as int,
                    remaining as int,
                ));
            }
            let size = self.distance.len();
            let d = self.distance[self.diameter * state.shape_id + remaining];
            make_distance(d, self.max_distance)
        }
    }

    /// The distance between `left` and `right`, found by walking the table:
    /// exact up to the ceiling, saturated beyond it.
    pub fn compute_distance(&self, left: &str, right: &str) -> (d: Distance)
        requires
            self.wf(),
        ensures
            d == saturated(edit_distance(left@, right@, self.transposition()), self.ceiling()),
    {
        let left_chars = to_chars(left);
        let right_chars = to_chars(right);
        let ghost k = self.ceiling() as int;
        let ghost t = self.transposition();
        let width: u32 = 2 * (self.max_distance as u32) + 1;
        let query_len = left_chars.len();
        let n = right_chars.len();
        let mut state = Self::initial_state();
        let mut j: usize = 0;
        proof {
            lemma_tracks_start(left@, right@, t, k);
        }
        while j < n
            invariant
                self.wf(),
                k == self.ceiling(),
                t == self.transposition(),
                width == 2 * k + 1,
                left_chars@ == left@,
                right_chars@ == right@,
                query_len == left@.len(),
                n == right@.len(),
                j <= n,
                state.shape_id < self.shapes().len(),
                tracks(
                    self.shapes()[state.shape_id as int],
                    state.offset as int,
                    left@,
                    right@,
                    t,
                    k,
                    j as nat,
                ),
            decreases n - j,
        {
            let chi = characteristic_vector(&left_chars, right_chars[j], state.offset, width);
            let tr = self.transition(state, chi);
            proof {
                lemma_follow(
                    self.shapes()[state.shape_id as int],
                    self.shapes()[tr.dest_shape_id as int],
                    tr.delta_offset as int,
                    state.offset as int,
                    left@,
                    right@,
                    t,
                    k,
                    j as nat,
                );
            }
            state = tr.apply(state, query_len);
            j += 1;
        }
        proof {
            lemma_final(
                self.shapes()[state.shape_id as int],
                state.offset as int,
                left@,
                right@,
                t,
                k,
            );
        }
        self.distance(state, query_len)
    }

    /// Finds the shapes of `nfa` and fills the table: from the start and the
    /// dead end, each shape is followed along every characteristic vector,
    /// and each new shape met on the way is followed in its turn.
    pub fn from_nfa(nfa: &LevenshteinNFA) -> (dfa: ParametricDFA)
        requires
            nfa.wf(),
        ensures
            dfa.wf(),
            dfa.ceiling() == nfa.ceiling(),
            dfa.transposition() == nfa.transposition(),
    {
        let k = nfa.max_distance();
        let ghost t = nfa.transposition();
        let width: u32 = nfa.multistate_diameter();
        let stride: u32 = 1u32 << width;
        assert(0 < stride <= 128) by (bit_vector)
            requires
                width <= 7,
                stride == 1u32 << width,
        ;
        let mut index: Vec<MultiState> = Vec::new();
        index.push(nfa.initial_states());
        index.push(MultiState::empty());
        let ghost mut centers: Seq<int> = seq![0int, 0int];
        let mut transitions: Vec<Transition> = Vec::new();
        let mut state_id: usize = 0;
        proof {
            let shapes = shapes_of(index@);
            assert(shapes[0] == seq![plain(0, 0)]);
            assert(shapes[1] == Seq::<NFAState>::empty());
            assert(shapes[0][0] == plain(0, 0));
            assert forall|p: int| 0 <= p < shapes.len() implies crate::multistate::sorted(
                #[trigger] shapes[p],
            ) && crate::shape_count::rankable(shapes[p]) by {
                lemma_windowed_rankable(shapes[p], k as int);
            }
            lemma_shapes_bounded(shapes);
        }
        while state_id < index.len()
            invariant
                nfa.wf(),
                k == nfa.ceiling(),
                t == nfa.transposition(),
                width == 2 * k + 1,
                stride == columns(k as int),
                0 < stride <= 128,
                shapes_ok(shapes_of(index@), k as int),
                centers_ok(index@, centers, k as int),
                state_id <= index@.len() <= pow2(ranks()),
                transitions@.len() == state_id * stride,
                table_ok(shapes_of(index@), transitions@, stride as int, state_id as int, k as int, t),
                all_found(transitions@, stride as int, index@.len() as int),
                only_earlier(transitions@, transitions@.len() as int, index@.len() as int),
            decreases pow2(ranks()) - state_id,
        {
            let mut chi: u32 = 0;
            while chi < stride
                invariant
                    nfa.wf(),
                    k == nfa.ceiling(),
                    t == nfa.transposition(),
                    width == 2 * k + 1,
                    stride == columns(k as int),
                    0 < stride <= 128,
                    shapes_ok(shapes_of(index@), k as int),
                    centers_ok(index@, centers, k as int),
                    state_id < index@.len() <= pow2(ranks()),
                    chi <= stride,
                    transitions@.len() == state_id * stride + chi,
                    table_ok(
                        shapes_of(index@),
                        transitions@,
                        stride as int,
                        state_id as int,
                        k as int,
                        t,
                    ),
                    forall|c: int|
                        0 <= c < chi ==> entry_ok(
                            shapes_of(index@),
                            #[trigger] entry_at(transitions@, stride as int, state_id as int, c),
                            state_id as int,
                            c,
                            k as int,
                            t,
                        ),
                    all_found(transitions@, stride as int, index@.len() as int),
                    only_earlier(transitions@, transitions@.len() as int, index@.len() as int),
                decreases stride - chi,
            {
                let ghost before = index@;
                let ghost table = transitions@;
                let (tr, Ghost(next_centers)) = expand(nfa, &mut index, Ghost(centers), state_id, chi);
                transitions.push(tr);
                proof {
                    centers = next_centers;
                    assert forall|p: int| 2 <= p < index@.len() implies #[trigger] found_from(
                        transitions@,
                        stride as int,
                        p,
                    ) by {
                        if p < before.len() {
                            lemma_found_grows(table, transitions@, stride as int, p);
                        } else {
                            assert(entry_at(transitions@, stride as int, state_id as int, chi as int)
                                == tr);
                            lemma_flat(state_id as int, chi as int, p, stride as int);
                            assert forall|e: int|
                                0 <= e < state_id * stride + chi implies (
                            #[trigger] transitions@[e]).dest_shape_id < p by {
                                assert(table[e].dest_shape_id < before.len());
                            }
                        }
                    }
                    assert forall|e: int| 0 <= e < transitions@.len() implies (
                    #[trigger] transitions@[e]).dest_shape_id < index@.len() by {
                        if e < table.len() {
                            assert(table[e].dest_shape_id < before.len());
                        }
                    }
                    lemma_table_grows(
                        before,
                        index@,
                        table,
                        transitions@,
                        stride as int,
                        state_id as int,
                        k as int,
                        t,
                    );
                    assert forall|c: int| 0 <= c < chi + 1 implies entry_ok(
                        shapes_of(index@),
                        #[trigger] entry_at(transitions@, stride as int, state_id as int, c),
                        state_id as int,
                        c,
                        k as int,
                        t,
                    ) by {
                        if c < chi {
                            let e = entry_at(table, stride as int, state_id as int, c);
                            assert(entry_at(transitions@, stride as int, state_id as int, c) == e);
                            assert(entry_ok(shapes_of(before), e, state_id as int, c, k as int, t));
                            assert(shapes_of(index@)[state_id as int] == shapes_of(before)[state_id as int]);
                            assert(shapes_of(index@)[e.dest_shape_id as int] == shapes_of(
                                before,
                            )[e.dest_shape_id as int]);
                        }
                    }
                }
                chi += 1;
            }
            proof {
                lemma_flat(state_id as int, 0, state_id + 1, stride as int);
            }
            state_id += 1;
        }
        let n = index.len();
        let diameter: usize = width as usize;
        let mut distance: Vec<u8> = Vec::new();
        let mut p: usize = 0;
        while p < n
            invariant
                nfa.wf(),
                k == nfa.ceiling(),
                width == 2 * k + 1,
                diameter == width,
                n == index@.len(),
                p <= n,
                distance@.len() == p * diameter,
                costs_ok(shapes_of(index@), distance@, diameter as int, p as int, k as int),
            decreases n - p,
        {
            let mut r: u32 = 0;
            while r < width
                invariant
                    nfa.wf(),
                    k == nfa.ceiling(),
                    width == 2 * k + 1,
                    diameter == width,
                    n == index@.len(),
                    p < n,
                    r <= width,
                    distance@.len() == p * diameter + r,
                    costs_ok(shapes_of(index@), distance@, diameter as int, p as int, k as int),
                    forall|q: int|
                        0 <= q < r ==> #[trigger] cost_at(distance@, diameter as int, p as int, q)
                            == least_cost(shapes_of(index@)[p as int], q, k + 1),
                decreases width - r,
            {
                let ghost costs = distance@;
                let d = nfa.multistate_distance(&index[p], r).to_u8();
                proof {
                    lemma_least_cost(index@[p as int]@, r as int, k + 1);
                }
                distance.push(d);
                proof {
                    assert forall|a: int, q: int|
                        0 <= a < p && 0 <= q < diameter implies #[trigger] cost_at(
                        distance@,
                        diameter as int,
                        a,
                        q,
                    ) == least_cost(shapes_of(index@)[a], q, k + 1) by {
                        lemma_flat(a, q, p as int, diameter as int);
                        assert(cost_at(distance@, diameter as int, a, q) == cost_at(
                            costs,
                            diameter as int,
                            a,
                            q,
                        ));
                    }
                    assert forall|q: int| 0 <= q < r + 1 implies #[trigger] cost_at(
                        distance@,
                        diameter as int,
                        p as int,
                        q,
                    ) == least_cost(shapes_of(index@)[p as int], q, k + 1) by {
                        if q < r {
                            assert(cost_at(distance@, diameter as int, p as int, q) == cost_at(
                                costs,
                                diameter as int,
                                p as int,
                                q,
                            ));
                        }
                    }
                }
                r += 1;
            }
            proof {
                lemma_flat(p as int, 0, p + 1, diameter as int);
            }
            p += 1;
        }
        ParametricDFA {
            distance,
            transitions,
            max_distance: k,
            damerau: nfa.damerau(),
            transition_stride: stride as usize,
            diameter,
            shapes: Ghost(shapes_of(index@)),
        }
    }
}

} // verus!
