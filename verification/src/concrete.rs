//! The parametric automaton held against one query: the states that can be
//! reached, each a shape at a query position, and for each of them the state
//! that follows on each code point of the query and on any other code point.

use crate::levenshtein_nfa::{characteristic_vector, chi_bits, diameter, leads_to, window};
use crate::multistate::NFAState;
use crate::parametric_dfa::{ParametricDFA, ParametricState};
use crate::shape_count::lemma_distinct_bounded;
use vstd::arithmetic::div_mod::lemma_fundamental_div_mod_converse;
use vstd::prelude::*;

verus! {

/// `x`, but no more than `limit`.
pub open spec fn clamp(x: int, limit: int) -> int {
    if x <= limit {
        x
    } else {
        limit
    }
}

/// The state `to` follows the state `from` on a unit with the characteristic
/// vector `mv`: its shape is the one that follows, and its base has moved by
/// as much as the step says, though not past the query's end.
pub open spec fn moved(
    shapes: Seq<Seq<NFAState>>,
    from: ParametricState,
    to: ParametricState,
    k: int,
    t: bool,
    mv: Seq<bool>,
    limit: int,
) -> bool {
    exists|delta: int| #[trigger]
        leads_to(shapes[from.shape_id as int], shapes[to.shape_id as int], delta, k, t, mv)
            && to.offset == clamp(from.offset + delta, limit)
}

/// The states are the start, the dead end and what else was reached, each
/// within the shapes and the query, none twice.
pub open spec fn states_ok(states: Seq<ParametricState>, shapes: int, limit: int) -> bool {
    &&& states.len() >= 2
    &&& states[0] == (ParametricState { shape_id: 0, offset: 0 })
    &&& states[1] == (ParametricState { shape_id: 1, offset: 0 })
    &&& forall|s: int|
        0 <= s < states.len() ==> (#[trigger] states[s]).shape_id < shapes && states[s].offset
            <= limit
    &&& forall|s: int, r: int|
        0 <= s < states.len() && 0 <= r < states.len() && s != r ==> #[trigger] states[s]
            != #[trigger] states[r]
}

/// The row of the state `s` is right: `default` follows it on a code point
/// that the query does not hold, and `row[i]` on the letter `i`.
pub open spec fn row_ok(
    shapes: Seq<Seq<NFAState>>,
    k: int,
    t: bool,
    query: Seq<char>,
    letters: Seq<char>,
    states: Seq<ParametricState>,
    s: int,
    default: usize,
    row: Seq<usize>,
) -> bool {
    &&& default < states.len()
    &&& moved(
        shapes,
        states[s],
        states[default as int],
        k,
        t,
        chi_bits(0, diameter(k)),
        query.len() as int,
    )
    &&& row.len() == letters.len()
    &&& forall|i: int|
        0 <= i < letters.len() ==> (#[trigger] row[i]) < states.len() && moved(
            shapes,
            states[s],
            states[row[i] as int],
            k,
            t,
            window(query, states[s].offset as int, letters[i], diameter(k)),
            query.len() as int,
        )
}

/// The row of some state names the state `s` as one that follows it.
pub open spec fn names(default: usize, row: Seq<usize>, s: int) -> bool {
    default == s || row.contains(s as usize)
}

/// The state `s` follows an earlier state, on a letter or by default.
pub open spec fn reached_from(default: Seq<usize>, succ: Seq<Seq<usize>>, s: int) -> bool {
    exists|r: int|
        0 <= r < s && r < default.len() && r < succ.len() && #[trigger] names(
            default[r],
            succ[r],
            s,
        )
}

/// Every state but the start and the dead end follows an earlier state: the
/// states are those that can be reached, and no others.
pub open spec fn all_reached(default: Seq<usize>, succ: Seq<Seq<usize>>, states: int) -> bool {
    forall|s: int| 2 <= s < states ==> #[trigger] reached_from(default, succ, s)
}

/// The rows of a list of vectors.
pub open spec fn rows_of(succ: Seq<Vec<usize>>) -> Seq<Seq<usize>> {
    Seq::new(succ.len(), |i: int| succ[i]@)
}

/// The first `rows` states have their rows, and they are right.
pub open spec fn explored(
    shapes: Seq<Seq<NFAState>>,
    k: int,
    t: bool,
    query: Seq<char>,
    letters: Seq<char>,
    states: Seq<ParametricState>,
    default: Seq<usize>,
    succ: Seq<Seq<usize>>,
    rows: int,
) -> bool {
    &&& states_ok(states, shapes.len() as int, query.len() as int)
    &&& 0 <= rows <= states.len()
    &&& default.len() == rows
    &&& succ.len() == rows
    &&& all_reached(default, succ, states.len() as int)
    &&& forall|s: int|
        0 <= s < rows ==> row_ok(
            shapes,
            k,
            t,
            query,
            letters,
            states,
            s,
            #[trigger] default[s],
            succ[s],
        )
}

/// What was found for a query.
pub struct Exploration {
    pub states: Vec<ParametricState>,
    pub default_successor: Vec<usize>,
    pub successors: Vec<Vec<usize>>,
}

proof fn lemma_states_bounded(states: Seq<ParametricState>, shapes: int, limit: int)
    requires
        0 <= shapes,
        0 <= limit,
        forall|s: int|
            0 <= s < states.len() ==> (#[trigger] states[s]).shape_id < shapes && states[s].offset
                <= limit,
        forall|s: int, r: int|
            0 <= s < states.len() && 0 <= r < states.len() && s != r ==> #[trigger] states[s]
                != #[trigger] states[r],
    ensures
        states.len() <= shapes * (limit + 1),
{
    let codes = Seq::new(
        states.len(),
        |s: int| states[s].shape_id as int * (limit + 1) + states[s].offset as int,
    );
    assert forall|i: int| 0 <= i < codes.len() implies 0 <= #[trigger] codes[i] < shapes * (limit
        + 1) by {
        let p = states[i].shape_id as int;
        let o = states[i].offset as int;
        assert(0 <= p * (limit + 1) + o < shapes * (limit + 1)) by (nonlinear_arith)
            requires
                0 <= p < shapes,
                0 <= o <= limit,
        ;
    }
    assert forall|i: int, j: int|
        0 <= i < codes.len() && 0 <= j < codes.len() && i != j implies codes[i] != codes[j] by {
        if codes[i] == codes[j] {
            lemma_fundamental_div_mod_converse(
                codes[i],
                limit + 1,
                states[i].shape_id as int,
                states[i].offset as int,
            );
            lemma_fundamental_div_mod_converse(
                codes[j],
                limit + 1,
                states[j].shape_id as int,
                states[j].offset as int,
            );
            assert(states[i] == states[j]);
        }
    }
    assert(0 <= shapes * (limit + 1)) by (nonlinear_arith)
        requires
            0 <= shapes,
            0 <= limit,
    ;
    lemma_distinct_bounded(codes, shapes * (limit + 1));
}

/// The id of `state` among the states, which take it in if it is new.
fn get_or_allocate(
    states: &mut Vec<ParametricState>,
    state: ParametricState,
    Ghost(shapes): Ghost<int>,
    Ghost(limit): Ghost<int>,
) -> (id: usize)
    requires
        states_ok(old(states)@, shapes, limit),
        state.shape_id < shapes,
        state.offset <= limit,
        0 <= limit,
    ensures
        states_ok(final(states)@, shapes, limit),
        id < final(states)@.len(),
        final(states)@[id as int] == state,
        old(states)@.len() <= final(states)@.len() <= shapes * (limit + 1),
        final(states)@.len() == old(states)@.len() || (final(states)@.len() == old(states)@.len()
            + 1 && id == old(states)@.len()),
        forall|i: int| 0 <= i < old(states)@.len() ==> final(states)@[i] == old(states)@[i],
{
    let n = states.len();
    let mut i: usize = 0;
    while i < n
        invariant
            *states == *old(states),
            states_ok(states@, shapes, limit),
            0 <= limit,
            n == states.len(),
            i <= n,
            forall|j: int| 0 <= j < i ==> states@[j] != state,
        decreases n - i,
    {
        if states[i] == state {
            proof {
                lemma_states_bounded(states@, shapes, limit);
            }
            return i;
        }
        i += 1;
    }
    states.push(state);
    proof {
        lemma_states_bounded(states@, shapes, limit);
    }
    n
}

proof fn lemma_row_grows(
    shapes: Seq<Seq<NFAState>>,
    k: int,
    t: bool,
    query: Seq<char>,
    letters: Seq<char>,
    states: Seq<ParametricState>,
    longer: Seq<ParametricState>,
    s: int,
    default: usize,
    row: Seq<usize>,
)
    requires
        0 <= s < states.len() <= longer.len(),
        forall|i: int| 0 <= i < states.len() ==> longer[i] == states[i],
        row_ok(shapes, k, t, query, letters, states, s, default, row),
    ensures
        row_ok(shapes, k, t, query, letters, longer, s, default, row),
{
    assert(longer[s] == states[s]);
    assert(longer[default as int] == states[default as int]);
    assert forall|i: int| 0 <= i < letters.len() implies (#[trigger] row[i]) < longer.len()
        && moved(
        shapes,
        longer[s],
        longer[row[i] as int],
        k,
        t,
        window(query, longer[s].offset as int, letters[i], diameter(k)),
        query.len() as int,
    ) by {
        assert(longer[row[i] as int] == states[row[i] as int]);
    }
}

/// Walks the parametric automaton along the query: from the start and the
/// dead end, the states that follow on each letter and on any other code point,
/// and from each new state in its turn.
pub fn explore(pdfa: &ParametricDFA, query: &Vec<char>, letters: &Vec<char>) -> (r: Exploration)
    requires
        pdfa.wf(),
    ensures
        explored(
            pdfa.shapes(),
            pdfa.ceiling() as int,
            pdfa.transposition(),
            query@,
            letters@,
            r.states@,
            r.default_successor@,
            rows_of(r.successors@),
            r.states@.len() as int,
        ),
{
    let ghost shapes = pdfa.shapes();
    let ghost k = pdfa.ceiling() as int;
    let ghost t = pdfa.transposition();
    let ghost count = shapes.len() as int;
    let limit = query.len();
    let width: u32 = 2 * (pdfa.max_distance() as u32) + 1;
    let mut states: Vec<ParametricState> = Vec::new();
    states.push(ParametricDFA::initial_state());
    states.push(ParametricState::empty());
    let mut default_successor: Vec<usize> = Vec::new();
    let mut successors: Vec<Vec<usize>> = Vec::new();
    let mut s: usize = 0;
    proof {
        lemma_states_bounded(states@, count, limit as int);
    }
    while s < states.len()
        invariant
            pdfa.wf(),
            shapes == pdfa.shapes(),
            k == pdfa.ceiling(),
            t == pdfa.transposition(),
            count == shapes.len(),
            limit == query@.len(),
            width == 2 * k + 1,
            states@.len() <= count * (limit + 1),
            explored(
                shapes,
                k,
                t,
                query@,
                letters@,
                states@,
                default_successor@,
                rows_of(successors@),
                s as int,
            ),
        decreases count * (limit + 1) - s,
    {
        let state = states[s];
        let ghost before = states@;
        let step = pdfa.transition(state, 0);
        let next = step.apply(state, limit);
        let d = get_or_allocate(&mut states, next, Ghost(count), Ghost(limit as int));
        let mut row: Vec<usize> = Vec::new();
        let mut i: usize = 0;
        while i < letters.len()
            invariant
                pdfa.wf(),
                shapes == pdfa.shapes(),
                k == pdfa.ceiling(),
                t == pdfa.transposition(),
                count == shapes.len(),
                limit == query@.len(),
                width == 2 * k + 1,
                states_ok(states@, count, limit as int),
                before.len() <= states@.len() <= count * (limit + 1),
                forall|j: int| 0 <= j < before.len() ==> states@[j] == before[j],
                s < before.len(),
                state == before[s as int],
                d < states@.len(),
                moved(
                    shapes,
                    state,
                    states@[d as int],
                    k,
                    t,
                    chi_bits(0, diameter(k)),
                    limit as int,
                ),
                i <= letters@.len(),
                row@.len() == i,
                forall|x: int| before.len() <= x < states@.len() ==> #[trigger] names(d, row@, x),
                forall|j: int|
                    0 <= j < i ==> (#[trigger] row@[j]) < states@.len() && moved(
                        shapes,
                        state,
                        states@[row@[j] as int],
                        k,
                        t,
                        window(query@, state.offset as int, letters@[j], diameter(k)),
                        limit as int,
                    ),
            decreases letters@.len() - i,
        {
            let chi = characteristic_vector(query, letters[i], state.offset, width);
            let step = pdfa.transition(state, chi);
            let next = step.apply(state, limit);
            let ghost held = states@;
            let id = get_or_allocate(&mut states, next, Ghost(count), Ghost(limit as int));
            let ghost short = row@;
            row.push(id);
            proof {
                assert forall|x: int| before.len() <= x < states@.len() implies #[trigger] names(
                    d,
                    row@,
                    x,
                ) by {
                    if x < held.len() {
                        assert(names(d, short, x));
                        if d != x {
                            let w = choose|w: int| 0 <= w < short.len() && short[w] == x as usize;
                            assert(row@[w] == x as usize);
                        }
                    } else {
                        assert(row@[i as int] == id);
                    }
                }
                assert forall|j: int| 0 <= j < i + 1 implies (#[trigger] row@[j]) < states@.len()
                    && moved(
                    shapes,
                    state,
                    states@[row@[j] as int],
                    k,
                    t,
                    window(query@, state.offset as int, letters@[j], diameter(k)),
                    limit as int,
                ) by {
                    if j < i {
                        assert(states@[row@[j] as int] == held[row@[j] as int]);
                    }
                }
                assert(states@[d as int] == held[d as int]);
            }
            i += 1;
        }
        let ghost rows = rows_of(successors@);
        let ghost defaults = default_successor@;
        default_successor.push(d);
        successors.push(row);
        proof {
            let new_rows = rows_of(successors@);
            assert forall|x: int| 2 <= x < states@.len() implies #[trigger] reached_from(
                default_successor@,
                new_rows,
                x,
            ) by {
                if x < before.len() {
                    assert(reached_from(defaults, rows, x));
                    let r = choose|r: int|
                        0 <= r < x && r < defaults.len() && r < rows.len() && #[trigger] names(
                            defaults[r],
                            rows[r],
                            x,
                        );
                    assert(new_rows[r] == rows[r]);
                    assert(default_successor@[r] == defaults[r]);
                    assert(names(default_successor@[r], new_rows[r], x));
                } else {
                    assert(new_rows[s as int] == row@);
                    assert(names(default_successor@[s as int], new_rows[s as int], x));
                }
            }
            assert forall|r: int| 0 <= r < s + 1 implies row_ok(
                shapes,
                k,
                t,
                query@,
                letters@,
                states@,
                r,
                #[trigger] default_successor@[r],
                new_rows[r],
            ) by {
                if r < s {
                    assert(new_rows[r] == rows[r]);
                    assert(default_successor@[r] == defaults[r]);
                    lemma_row_grows(
                        shapes,
                        k,
                        t,
                        query@,
                        letters@,
                        before,
                        states@,
                        r,
                        defaults[r],
                        rows[r],
                    );
                } else {
                    assert(new_rows[r] == row@);
                    assert(states@[r] == state);
                }
            }
        }
        s += 1;
    }
    Exploration { states, default_successor, successors }
}

} // verus!
