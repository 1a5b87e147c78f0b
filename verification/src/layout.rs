//! The byte-level table: how the states that stand between code points, the
//! states inside a code point of the query, and the states that skip the rest
//! of a foreign code point are numbered, and what each row of the table holds.

use crate::alphabet::{grounded, nodes_ok, proper_prefix};
use crate::utf8::{announced, encoding, lemma_encoding_injective, lemma_encoding_shape};
use vstd::prelude::*;

verus! {

/// What a table is made from.
pub struct Layout {
    /// The encodings of the letters.
    pub letter_bytes: Seq<Seq<u8>>,
    /// The empty string and the proper prefixes of the encodings.
    pub prefixes: Seq<Seq<u8>>,
    /// For each state between code points, the one that follows on a code
    /// point that is no letter.
    pub default: Seq<usize>,
    /// For each state between code points and each letter, the one that follows.
    pub succ: Seq<Seq<usize>>,
    /// For each state between code points, the number of its chain of skipping
    /// states, if some state has it as its default.
    pub chain: Seq<Option<usize>>,
    /// For each chain, the state that it leads to.
    pub owners: Seq<usize>,
}

impl Layout {
    /// The number of states between code points.
    pub open spec fn roots(self) -> int {
        self.default.len() as int
    }

    /// The number of places inside and before a code point.
    pub open spec fn nodes(self) -> int {
        self.prefixes.len() as int
    }

    /// The number of the first skipping state.
    pub open spec fn base(self) -> int {
        self.roots() * self.nodes()
    }

    /// The number of states of the table.
    pub open spec fn total(self) -> int {
        self.base() + 3 * self.owners.len()
    }

    /// The state `s` after the bytes of the prefix `t` were read.
    pub open spec fn node_id(self, s: int, t: int) -> int {
        s * self.nodes() + t
    }

    /// The state of the chain `i` that skips `r` more bytes.
    pub open spec fn chain_id(self, i: int, r: int) -> int {
        self.base() + 3 * i + (r - 1)
    }

    /// What follows a skipping state, on any byte.
    pub open spec fn chain_target(self, i: int, r: int) -> int {
        if r <= 1 {
            self.node_id(self.owners[i] as int, 0)
        } else {
            self.chain_id(i, r - 1)
        }
    }

    /// What follows where the bytes `w` read since the state `s` begin no
    /// letter: the default of `s` if `w` is as long as its lead byte
    /// announces, else the state that skips what is left.
    pub open spec fn fallback(self, s: int, w: Seq<u8>) -> int {
        let more = announced(w[0]) - w.len();
        let d = self.default[s] as int;
        if more <= 0 {
            self.node_id(d, 0)
        } else {
            self.chain_id(self.chain[d].unwrap() as int, more)
        }
    }

    /// What follows the state `s` at the prefix `t` on the byte `b`: if the
    /// bytes so far are a letter, what follows `s` on that letter; if they
    /// begin one, the place further inside; else the fallback.
    pub open spec fn target_of(self, s: int, t: int, b: u8) -> int {
        let w = self.prefixes[t].push(b);
        if self.letter_bytes.contains(w) {
            self.node_id(self.succ[s][self.letter_bytes.index_of(w)] as int, 0)
        } else if self.prefixes.contains(w) {
            self.node_id(s, self.prefixes.index_of(w))
        } else {
            self.fallback(s, w)
        }
    }

    /// The parts fit: the prefixes belong to the encodings, every row names
    /// states that exist, and the chains are those of the defaults, each once.
    pub open spec fn wf(self) -> bool {
        &&& nodes_ok(self.letter_bytes, self.prefixes)
        &&& self.letter_bytes.no_duplicates()
        &&& self.succ.len() == self.roots()
        &&& self.chain.len() == self.roots()
        &&& forall|s: int| 0 <= s < self.roots() ==> (#[trigger] self.default[s]) < self.roots()
        &&& forall|s: int|
            0 <= s < self.roots() ==> (#[trigger] self.succ[s]).len() == self.letter_bytes.len()
        &&& forall|s: int, i: int|
            0 <= s < self.roots() && 0 <= i < self.letter_bytes.len() ==> (
            #[trigger] self.succ[s][i]) < self.roots()
        &&& forall|d: int|
            0 <= d < self.roots() && (#[trigger] self.chain[d]) is Some ==> self.chain[d].unwrap()
                < self.owners.len() && self.owners[self.chain[d].unwrap() as int] == d
        &&& forall|s: int|
            0 <= s < self.roots() ==> self.chain[(#[trigger] self.default[s]) as int] is Some
        &&& forall|i: int|
            0 <= i < self.owners.len() ==> (#[trigger] self.owners[i]) < self.roots()
                && self.chain[self.owners[i] as int] == Some(i as usize) && self.default.contains(
                self.owners[i],
            )
    }
}

/// The entry of the table for a state and a byte.
pub open spec fn entry(table: Seq<usize>, state: int, b: u8) -> int {
    table[state * 256 + b] as int
}

/// Every row of the table holds what the layout says.
pub open spec fn rows_ok(table: Seq<usize>, lay: Layout) -> bool {
    &&& table.len() == lay.total() * 256
    &&& forall|i: int| 0 <= i < table.len() ==> (#[trigger] table[i]) < lay.total()
    &&& forall|s: int, t: int, b: u8|
        0 <= s < lay.roots() && 0 <= t < lay.nodes() ==> #[trigger] entry(
            table,
            lay.node_id(s, t),
            b,
        ) == lay.target_of(s, t, b)
    &&& forall|i: int, r: int, b: u8|
        0 <= i < lay.owners.len() && 1 <= r <= 3 ==> #[trigger] entry(table, lay.chain_id(i, r), b)
            == lay.chain_target(i, r)
}

/// The state that the table reaches from `state` along `bytes`.
pub open spec fn byte_walk(table: Seq<usize>, state: int, bytes: Seq<u8>) -> int
    decreases bytes.len(),
{
    if bytes.len() == 0 {
        state
    } else {
        byte_walk(table, entry(table, state, bytes[0]), bytes.drop_first())
    }
}

/// The state between code points that follows `s` on the code point `c`.
pub open spec fn next_root(lay: Layout, letters: Seq<char>, s: int, c: char) -> int {
    if letters.contains(c) {
        lay.succ[s][letters.index_of(c)] as int
    } else {
        lay.default[s] as int
    }
}

/// Walking along two strings, one after the other, is walking along both.
pub proof fn lemma_walk_concat(table: Seq<usize>, state: int, x: Seq<u8>, y: Seq<u8>)
    ensures
        byte_walk(table, state, x + y) == byte_walk(table, byte_walk(table, state, x), y),
    decreases x.len(),
{
    if x.len() == 0 {
        assert(x + y =~= y);
    } else {
        assert((x + y).drop_first() =~= x.drop_first() + y);
        lemma_walk_concat(table, entry(table, state, x[0]), x.drop_first(), y);
    }
}

/// A skipping state with `r` bytes to skip reaches, after any `r` bytes, the
/// state that its chain leads to.
proof fn lemma_chain_walk(table: Seq<usize>, lay: Layout, i: int, r: int, bytes: Seq<u8>)
    requires
        rows_ok(table, lay),
        0 <= i < lay.owners.len(),
        1 <= r <= 3,
        bytes.len() == r,
    ensures
        byte_walk(table, lay.chain_id(i, r), bytes) == lay.node_id(lay.owners[i] as int, 0),
    decreases r,
{
    let x = entry(table, lay.chain_id(i, r), bytes[0]);
    assert(x == lay.chain_target(i, r));
    assert(byte_walk(table, lay.chain_id(i, r), bytes) == byte_walk(table, x, bytes.drop_first()));
    if r > 1 {
        lemma_chain_walk(table, lay, i, r - 1, bytes.drop_first());
    } else {
        assert(bytes.drop_first().len() == 0);
        assert(byte_walk(table, x, bytes.drop_first()) == x);
    }
}

/// From inside a code point onward: from the state `s` with the first `i`
/// bytes of `c` read, the rest of `c` leads to the state that follows `s` on `c`.
proof fn lemma_walk_on(
    table: Seq<usize>,
    lay: Layout,
    letters: Seq<char>,
    s: int,
    c: char,
    i: int,
    t: int,
)
    requires
        lay.wf(),
        rows_ok(table, lay),
        letters.no_duplicates(),
        lay.letter_bytes.len() == letters.len(),
        forall|a: int| 0 <= a < letters.len() ==> #[trigger] lay.letter_bytes[a] == encoding(letters[a]),
        0 <= s < lay.roots(),
        0 <= i < encoding(c).len(),
        0 <= t < lay.nodes(),
        lay.prefixes[t] == encoding(c).take(i),
    ensures
        byte_walk(table, lay.node_id(s, t), encoding(c).skip(i)) == lay.node_id(
            next_root(lay, letters, s, c),
            0,
        ),
    decreases encoding(c).len() - i,
{
    let e = encoding(c);
    let n = e.len() as int;
    lemma_encoding_shape(c);
    let b = e[i];
    let w = lay.prefixes[t].push(b);
    let x = entry(table, lay.node_id(s, t), b);
    assert(w =~= e.take(i + 1));
    assert(e.skip(i)[0] == b);
    assert(e.skip(i).drop_first() =~= e.skip(i + 1));
    assert(x == lay.target_of(s, t, b));
    assert(w[0] == e[0]);
    assert(byte_walk(table, lay.node_id(s, t), e.skip(i)) == byte_walk(table, x, e.skip(i + 1)));
    if lay.letter_bytes.contains(w) {
        let a = lay.letter_bytes.index_of(w);
        assert(lay.letter_bytes[a] == encoding(letters[a]));
        lemma_encoding_shape(letters[a]);
        assert(w.len() == n);
        assert(w =~= e);
        lemma_encoding_injective(letters[a], c);
        assert(letters.contains(c));
        let a2 = letters.index_of(c);
        assert(a2 == a);
        assert(e.skip(i + 1).len() == 0);
        assert(byte_walk(table, x, e.skip(i + 1)) == x);
    } else if lay.prefixes.contains(w) {
        let t2 = lay.prefixes.index_of(w);
        assert(t2 >= 1) by {
            if t2 == 0 {
                assert(lay.prefixes[0].len() == 0);
            }
        }
        assert(grounded(lay.prefixes[t2], lay.letter_bytes));
        let a = choose|a: int|
            0 <= a < lay.letter_bytes.len() && proper_prefix(w, #[trigger] lay.letter_bytes[a]);
        assert(lay.letter_bytes[a] == encoding(letters[a]));
        lemma_encoding_shape(letters[a]);
        assert(lay.letter_bytes[a].take(w.len() as int)[0] == lay.letter_bytes[a][0]);
        assert(i + 1 < n);
        lemma_walk_on(table, lay, letters, s, c, i + 1, t2);
    } else {
        assert(!letters.contains(c)) by {
            if letters.contains(c) {
                let a = letters.index_of(c);
                assert(lay.letter_bytes[a] == e);
                if i + 1 == n {
                    assert(w =~= e);
                    assert(lay.letter_bytes.contains(w));
                } else {
                    assert(lay.prefixes.contains(lay.letter_bytes[a].take(i + 1)));
                }
            }
        }
        let d = lay.default[s] as int;
        let more = n - (i + 1);
        if more > 0 {
            let chain = lay.chain[d].unwrap() as int;
            lemma_chain_walk(table, lay, chain, more, e.skip(i + 1));
        } else {
            assert(e.skip(i + 1).len() == 0);
            assert(byte_walk(table, x, e.skip(i + 1)) == x);
        }
    }
}

/// One code point: its bytes lead from a state between code points to the
/// state that follows on it.
pub proof fn lemma_char_walk(table: Seq<usize>, lay: Layout, letters: Seq<char>, s: int, c: char)
    requires
        lay.wf(),
        rows_ok(table, lay),
        letters.no_duplicates(),
        lay.letter_bytes.len() == letters.len(),
        forall|a: int| 0 <= a < letters.len() ==> #[trigger] lay.letter_bytes[a] == encoding(letters[a]),
        0 <= s < lay.roots(),
    ensures
        byte_walk(table, lay.node_id(s, 0), encoding(c)) == lay.node_id(
            next_root(lay, letters, s, c),
            0,
        ),
        0 <= next_root(lay, letters, s, c) < lay.roots(),
{
    lemma_encoding_shape(c);
    assert(encoding(c).skip(0) =~= encoding(c));
    assert(lay.prefixes[0] =~= encoding(c).take(0));
    lemma_walk_on(table, lay, letters, s, c, 0, 0);
    if letters.contains(c) {
        let a = letters.index_of(c);
        assert(lay.succ[s][a] < lay.roots());
    }
}

} // verus!
