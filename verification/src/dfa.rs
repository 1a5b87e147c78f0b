//! The automaton for one query, as a table over the bytes of UTF-8: it reads
//! a candidate byte by byte and reports, where the candidate ends, its
//! distance to the query.

use crate::alphabet::{alphabet_of, bytes_of, letters_ok, prefixes_of};
use crate::builder::{build_table, chains_of};
use crate::concrete::{clamp, explore, explored, moved, row_ok, rows_of};
use crate::distance::{make_distance, saturated, Distance};
use crate::edit_distance::edit_distance;
use crate::layout::{
    byte_walk, entry, lemma_char_walk, lemma_walk_concat, next_root, rows_ok, Layout,
};
use crate::levenshtein_nfa::{chi_bits, diameter, leads_to, window, MAX_DISTANCE};
use crate::metric::lemma_symmetry;
use crate::multistate::{least_cost, NFAState};
use crate::parametric_dfa::{shapes_ok, ParametricDFA, ParametricState};
use crate::shape_count::lemma_flat;
use crate::simulation::{lemma_final, lemma_follow, lemma_tracks_start, plain, tracks};
use crate::text::to_chars;
use crate::utf8::{encoding, encodings_of, lemma_encode_first, lemma_encoding_injective};
use vstd::prelude::*;
use vstd::utf8::encode_utf8;

verus! {

/// What a table stands for.
pub struct Model {
    pub query: Seq<char>,
    pub k: int,
    pub t: bool,
    pub shapes: Seq<Seq<NFAState>>,
    pub letters: Seq<char>,
    pub states: Seq<ParametricState>,
    pub lay: Layout,
}

impl Model {
    /// The shape of the state `s`.
    pub open spec fn shape(self, s: int) -> Seq<NFAState> {
        self.shapes[self.states[s].shape_id as int]
    }

    /// The base of the state `s`.
    pub open spec fn offset(self, s: int) -> int {
        self.states[s].offset as int
    }

    /// The distance reported where a candidate ends in the state `s`.
    pub open spec fn report(self, s: int) -> Distance {
        saturated(
            least_cost(self.shape(s), self.query.len() - self.offset(s), self.k + 1) as nat,
            self.k as u8,
        )
    }

    /// The states are those that the parametric automaton reaches along the
    /// query, with their rows, and the layout is made from them and from the
    /// encodings of the query's letters.
    pub open spec fn wf(self) -> bool {
        &&& 0 <= self.k <= MAX_DISTANCE
        &&& shapes_ok(self.shapes, self.k)
        &&& letters_ok(self.query, self.letters, self.lay.letter_bytes)
        &&& self.lay.wf()
        &&& self.lay.roots() == self.states.len()
        &&& explored(
            self.shapes,
            self.k,
            self.t,
            self.query,
            self.letters,
            self.states,
            self.lay.default,
            self.lay.succ,
            self.states.len() as int,
        )
    }

    /// The state `x` of the table stands between code points, and its shape
    /// at its base tracks the whole of `b`.
    pub open spec fn ends_well(self, x: int, b: Seq<char>) -> bool {
        exists|f: int|
            0 <= f < self.states.len() && x == #[trigger] self.lay.node_id(f, 0) && tracks(
                self.shape(f),
                self.offset(f),
                self.query,
                b,
                self.t,
                self.k,
                b.len(),
            )
    }
}

proof fn lemma_zero_bit(p: u32)
    by (bit_vector)
    requires
        p < 32,
    ensures
        (0u32 >> p) & 1u32 != 1u32,
{
}

/// A code point that the query does not hold has the empty characteristic vector.
proof fn lemma_blank(query: Seq<char>, base: int, c: char, width: nat)
    requires
        !query.contains(c),
    ensures
        window(query, base, c, width) == chi_bits(0, width),
{
    assert forall|p: int| 0 <= p < width implies window(query, base, c, width)[p] == chi_bits(
        0,
        width,
    )[p] by {
        if 0 <= p < 32 {
            lemma_zero_bit(p as u32);
        }
        if 0 <= base + p < query.len() {
            assert(query.contains(query[base + p]));
        }
    }
    assert(window(query, base, c, width) =~= chi_bits(0, width));
}

/// One code point of the candidate: its bytes lead from the state `s` to a
/// state whose shape tracks the candidate one unit further.
proof fn lemma_step_tracks(m: Model, table: Seq<usize>, s: int, b: Seq<char>, j: nat)
    requires
        m.wf(),
        rows_ok(table, m.lay),
        0 <= s < m.states.len(),
        j < b.len(),
        tracks(m.shape(s), m.offset(s), m.query, b, m.t, m.k, j),
    ensures
        ({
            let s2 = next_root(m.lay, m.letters, s, b[j as int]);
            &&& 0 <= s2 < m.states.len()
            &&& byte_walk(table, m.lay.node_id(s, 0), encoding(b[j as int])) == m.lay.node_id(s2, 0)
            &&& tracks(m.shape(s2), m.offset(s2), m.query, b, m.t, m.k, j + 1)
        }),
{
    let c = b[j as int];
    let s2 = next_root(m.lay, m.letters, s, c);
    let limit = m.query.len() as int;
    lemma_char_walk(table, m.lay, m.letters, s, c);
    let mv = window(m.query, m.offset(s), c, diameter(m.k));
    assert(row_ok(
        m.shapes,
        m.k,
        m.t,
        m.query,
        m.letters,
        m.states,
        s,
        m.lay.default[s],
        m.lay.succ[s],
    ));
    if m.letters.contains(c) {
        let a = m.letters.index_of(c);
        assert(m.lay.succ[s][a] < m.states.len());
    } else {
        assert(!m.query.contains(c)) by {
            if m.query.contains(c) {
                let q = choose|q: int| 0 <= q < m.query.len() && m.query[q] == c;
                assert(m.letters.contains(m.query[q]));
            }
        }
        lemma_blank(m.query, m.offset(s), c, diameter(m.k));
    }
    assert(moved(m.shapes, m.states[s], m.states[s2], m.k, m.t, mv, limit));
    let delta = choose|delta: int| #[trigger]
        leads_to(m.shape(s), m.shape(s2), delta, m.k, m.t, mv) && m.states[s2].offset == clamp(
            m.states[s].offset + delta,
            limit,
        );
    assert(m.states[s2].shape_id < m.shapes.len());
    lemma_follow(m.shape(s), m.shape(s2), delta, m.offset(s), m.query, b, m.t, m.k, j);
}

/// The rest of the candidate: from a state whose shape tracks the first `j`
/// units, the bytes of the other units lead to a state that tracks them all.
proof fn lemma_run(m: Model, table: Seq<usize>, s: int, b: Seq<char>, j: nat)
    requires
        m.wf(),
        rows_ok(table, m.lay),
        0 <= s < m.states.len(),
        j <= b.len(),
        tracks(m.shape(s), m.offset(s), m.query, b, m.t, m.k, j),
    ensures
        m.ends_well(byte_walk(table, m.lay.node_id(s, 0), encode_utf8(b.skip(j as int))), b),
    decreases b.len() - j,
{
    let rest = b.skip(j as int);
    let start = m.lay.node_id(s, 0);
    if j == b.len() {
        assert(encode_utf8(rest).len() == 0);
        assert(byte_walk(table, start, encode_utf8(rest)) == start);
    } else {
        let c = b[j as int];
        let s2 = next_root(m.lay, m.letters, s, c);
        lemma_step_tracks(m, table, s, b, j);
        lemma_encode_first(rest);
        assert(rest[0] == c);
        assert(rest.drop_first() =~= b.skip(j as int + 1));
        lemma_walk_concat(table, start, encoding(c), encode_utf8(b.skip(j as int + 1)));
        lemma_run(m, table, s2, b, (j + 1) as nat);
    }
}

/// The automaton for one query.
pub struct DFA {
    transitions: Vec<usize>,
    distances: Vec<Distance>,
    initial_state: usize,
    model: Ghost<Model>,
}

impl DFA {
    /// What the table stands for.
    pub closed spec fn model(&self) -> Model {
        self.model@
    }

    /// The table, a row of 256 entries for each state.
    pub closed spec fn table(&self) -> Seq<usize> {
        self.transitions@
    }

    /// What each state reports.
    pub closed spec fn reports(&self) -> Seq<Distance> {
        self.distances@
    }

    /// The state before any byte is read.
    pub closed spec fn start(&self) -> int {
        self.initial_state as int
    }

    /// The query that the automaton was built for.
    pub open spec fn query(&self) -> Seq<char> {
        self.model().query
    }

    /// The ceiling as a number.
    pub open spec fn ceiling(&self) -> u8 {
        self.model().k as u8
    }

    /// Whether a swap counts as one edit.
    pub open spec fn transposition(&self) -> bool {
        self.model().t
    }

    /// The states of the parametric automaton that can be reached along the
    /// query.
    pub open spec fn states(&self) -> Seq<ParametricState> {
        self.model().states
    }

    /// The places before and inside a letter's encoding: the empty string,
    /// and the byte strings that begin an encoding without ending it.
    pub open spec fn places(&self) -> Seq<Seq<u8>> {
        self.model().lay.prefixes
    }

    /// The states that follow some state on a code point that is no letter
    /// of the query.
    pub open spec fn skipped_to(&self) -> Seq<usize> {
        self.model().lay.owners
    }

    /// The number of states: each reachable state of the parametric
    /// automaton at each place, and three states that skip the bytes of a
    /// foreign code point for each state that follows on one.
    pub open spec fn size(&self) -> int {
        (self.states().len() * self.places().len() + 3 * self.skipped_to().len()) as int
    }

    /// The table is the parametric automaton held against the query, byte by
    /// byte: its rows are what the layout of the model says, and the states
    /// between code points report the closing costs of their shapes.
    pub open spec fn wf(&self) -> bool {
        let m = self.model();
        &&& m.wf()
        &&& rows_ok(self.table(), m.lay)
        &&& self.reports().len() == m.lay.total()
        &&& self.start() == m.lay.node_id(0, 0)
        &&& forall|s: int|
            0 <= s < m.states.len() ==> self.reports()[#[trigger] m.lay.node_id(s, 0)] == m.report(
                s,
            )
    }

    /// The table reports the distance: the bytes of any string lead from the
    /// start to a state that reports the string's distance to the query.
    pub proof fn lemma_reports(&self, text: Seq<char>)
        requires
            self.wf(),
        ensures
            0 <= byte_walk(self.table(), self.start(), encode_utf8(text)) < self.size(),
            self.reports()[byte_walk(self.table(), self.start(), encode_utf8(text))] == saturated(
                edit_distance(self.query(), text, self.transposition()),
                self.ceiling(),
            ),
    {
        let m = self.model@;
        let table = self.transitions@;
        let x = byte_walk(table, self.initial_state as int, encode_utf8(text));
        assert(text.skip(0) =~= text);
        lemma_tracks_start(m.query, text, m.t, m.k);
        assert(m.shape(0) == seq![plain(0, 0)]);
        lemma_run(m, table, 0, text, 0);
        let f = choose|f: int|
            0 <= f < m.states.len() && x == #[trigger] m.lay.node_id(f, 0) && tracks(
                m.shape(f),
                m.offset(f),
                m.query,
                text,
                m.t,
                m.k,
                text.len(),
            );
        lemma_final(m.shape(f), m.offset(f), m.query, text, m.t, m.k);
        lemma_flat(f, 0, m.lay.roots(), m.lay.nodes());
        assert(self.distances@[m.lay.node_id(f, 0)] == m.report(f));
    }

    /// Query and candidate can change places: the automaton for one string
    /// reports for another what the automaton for the other, under the same
    /// ceiling, reports for the one.
    pub proof fn lemma_swapped(&self, other: &DFA)
        requires
            self.wf(),
            other.wf(),
            self.ceiling() == other.ceiling(),
            self.transposition() == other.transposition(),
        ensures
            self.reports()[byte_walk(self.table(), self.start(), encode_utf8(other.query()))]
                == other.reports()[byte_walk(
                other.table(),
                other.start(),
                encode_utf8(self.query()),
            )],
    {
        self.lemma_reports(other.query());
        other.lemma_reports(self.query());
        lemma_symmetry(self.query(), other.query(), self.transposition(), self.ceiling());
    }

    /// The number of states.
    pub fn num_states(&self) -> (n: usize)
        requires
            self.wf(),
        ensures
            n == self.size(),
            n == self.reports().len(),
            n * 256 == self.table().len(),
    {
        self.distances.len()
    }

    /// The state before any byte is read.
    pub fn initial_state(&self) -> (s: usize)
        requires
            self.wf(),
        ensures
            s == self.start(),
            s < self.size(),
    {
        proof {
            let m = self.model@;
            lemma_flat(0, 0, m.lay.roots(), m.lay.nodes());
        }
        self.initial_state
    }

    /// What the state `state` reports.
    pub fn distance(&self, state: usize) -> (d: Distance)
        requires
            self.wf(),
            state < self.size(),
        ensures
            d == self.reports()[state as int],
    {
        self.distances[state]
    }

    /// The state that follows `from` on the byte `b`.
    pub fn transition(&self, from: usize, b: u8) -> (to: usize)
        requires
            self.wf(),
            from < self.size(),
        ensures
            to == entry(self.table(), from as int, b),
            to < self.size(),
    {
        let size = self.transitions.len();
        self.transitions[from * 256 + b as usize]
    }

    /// The distance between the query and `text`: exact up to the ceiling,
    /// saturated beyond it.
    pub fn eval(&self, text: &str) -> (d: Distance)
        requires
            self.wf(),
        ensures
            d == saturated(
                edit_distance(self.query(), text@, self.transposition()),
                self.ceiling(),
            ),
    {
        let bytes = text.as_bytes();
        let n = bytes.len();
        let ghost m = self.model@;
        let ghost table = self.transitions@;
        let mut state = self.initial_state();
        let mut i: usize = 0;
        assert(bytes@.take(0) =~= Seq::<u8>::empty());
        while i < n
            invariant
                self.wf(),
                m == self.model@,
                table == self.transitions@,
                n == bytes@.len(),
                i <= n,
                state < m.lay.total(),
                state == byte_walk(table, self.initial_state as int, bytes@.take(i as int)),
            decreases n - i,
        {
            let ghost before = state as int;
            state = self.transition(state, bytes[i]);
            proof {
                let one = seq![bytes@[i as int]];
                assert(bytes@.take(i + 1) =~= bytes@.take(i as int) + one);
                lemma_walk_concat(table, self.initial_state as int, bytes@.take(i as int), one);
                assert(one.drop_first().len() == 0);
                assert(byte_walk(table, before, one) == byte_walk(
                    table,
                    entry(table, before, one[0]),
                    one.drop_first(),
                ));
                assert(byte_walk(table, entry(table, before, one[0]), one.drop_first()) == entry(
                    table,
                    before,
                    one[0],
                ));
            }
            i += 1;
        }
        proof {
            assert(bytes@.take(n as int) =~= bytes@);
            self.lemma_reports(text@);
        }
        self.distance(state)
    }
}

impl ParametricDFA {
    /// The automaton for `query`: the states of the parametric automaton that
    /// can be reached along the query, laid out as a table over bytes.
    pub fn build_dfa(&self, query: &str) -> (dfa: DFA)
        requires
            self.wf(),
        ensures
            dfa.wf(),
            dfa.query() == query@,
            dfa.ceiling() == self.ceiling(),
            dfa.transposition() == self.transposition(),
    {
        let query_chars = to_chars(query);
        let encodings = encodings_of(query);
        let (letters, letter_bytes) = alphabet_of(&query_chars, &encodings);
        let found = explore(self, &query_chars, &letters);
        let prefixes = prefixes_of(&letter_bytes);
        let ghost k = self.ceiling() as int;
        let ghost t = self.transposition();
        let ghost shapes = self.shapes();
        let ghost states = found.states@;
        let ghost succ = rows_of(found.successors@);
        proof {
            assert forall|s: int| 0 <= s < found.default_successor@.len() implies (
            #[trigger] found.default_successor@[s]) < found.default_successor@.len() by {
                assert(row_ok(
                    shapes,
                    k,
                    t,
                    query@,
                    letters@,
                    states,
                    s,
                    found.default_successor@[s],
                    succ[s],
                ));
            }
        }
        let (chain, owners) = chains_of(&found.default_successor);
        let ghost lay = Layout {
            letter_bytes: bytes_of(letter_bytes@),
            prefixes: bytes_of(prefixes@),
            default: found.default_successor@,
            succ,
            chain: chain@,
            owners: owners@,
        };
        proof {
            assert forall|i: int, j: int|
                0 <= i < lay.letter_bytes.len() && 0 <= j < lay.letter_bytes.len() && i
                    != j implies lay.letter_bytes[i] != lay.letter_bytes[j] by {
                if lay.letter_bytes[i] == lay.letter_bytes[j] {
                    lemma_encoding_injective(letters@[i], letters@[j]);
                }
            }
            assert forall|s: int| 0 <= s < lay.roots() implies (#[trigger] lay.succ[s]).len()
                == lay.letter_bytes.len() by {
                assert(row_ok(shapes, k, t, query@, letters@, states, s, lay.default[s], succ[s]));
            }
            assert forall|s: int, i: int|
                0 <= s < lay.roots() && 0 <= i < lay.letter_bytes.len() implies (
            #[trigger] lay.succ[s][i]) < lay.roots() by {
                assert(row_ok(shapes, k, t, query@, letters@, states, s, lay.default[s], succ[s]));
            }
        }
        let (table, total) = build_table(
            &letter_bytes,
            &prefixes,
            &found.default_successor,
            &found.successors,
            &chain,
            &owners,
            Ghost(lay),
        );
        let ghost m = Model { query: query@, k, t, shapes, letters: letters@, states, lay };
        let roots = found.states.len();
        let nodes = prefixes.len();
        let chains = owners.len();
        let limit = query_chars.len();
        let far = make_distance(self.max_distance() + 1, self.max_distance());
        let mut distances: Vec<Distance> = Vec::new();
        let mut s: usize = 0;
        assert(0 == 0 * nodes) by (nonlinear_arith);
        while s < roots
            invariant
                self.wf(),
                m.wf(),
                m == (Model { query: query@, k, t, shapes, letters: letters@, states, lay }),
                k == self.ceiling(),
                shapes == self.shapes(),
                states == found.states@,
                roots == states.len(),
                nodes == lay.nodes(),
                nodes >= 1,
                limit == query@.len(),
                s <= roots,
                distances@.len() == s * nodes,
                forall|p: int|
                    0 <= p < s ==> distances@[#[trigger] lay.node_id(p, 0)] == m.report(p),
            decreases roots - s,
        {
            let ghost held = distances@;
            let d = self.distance(found.states[s], limit);
            distances.push(d);
            let mut q: usize = 1;
            while q < nodes
                invariant
                    1 <= q <= nodes,
                    nodes == lay.nodes(),
                    s < roots,
                    held.len() == s * nodes,
                    distances@.len() == s * nodes + q,
                    forall|x: int| 0 <= x < held.len() ==> distances@[x] == held[x],
                    distances@[s * nodes] == d,
                decreases nodes - q,
            {
                distances.push(far);
                q += 1;
            }
            proof {
                assert((s + 1) * nodes == s * nodes + nodes) by (nonlinear_arith);
                assert forall|p: int| 0 <= p < s + 1 implies distances@[#[trigger] lay.node_id(
                    p,
                    0,
                )] == m.report(p) by {
                    if p < s {
                        lemma_flat(p, 0, s as int, nodes as int);
                        assert(distances@[lay.node_id(p, 0)] == held[lay.node_id(p, 0)]);
                    }
                }
            }
            s += 1;
        }
        let ghost held = distances@;
        let mut i: usize = 0;
        while i < chains
            invariant
                i <= chains,
                distances@.len() == held.len() + 3 * i,
                forall|x: int| 0 <= x < held.len() ==> distances@[x] == held[x],
            decreases chains - i,
        {
            distances.push(far);
            distances.push(far);
            distances.push(far);
            i += 1;
        }
        proof {
            assert forall|p: int| 0 <= p < states.len() implies distances@[#[trigger] lay.node_id(
                p,
                0,
            )] == m.report(p) by {
                lemma_flat(p, 0, roots as int, nodes as int);
                assert(distances@[lay.node_id(p, 0)] == held[lay.node_id(p, 0)]);
            }
            assert(0 * nodes + 0 == 0) by (nonlinear_arith);
        }
        DFA { transitions: table, distances, initial_state: 0, model: Ghost(m) }
    }
}

} // verus!
