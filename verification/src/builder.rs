//! Filling the byte-level table row by row.

use crate::alphabet::{bytes_of, copy_bytes, find};
use crate::concrete::rows_of;
use crate::layout::{entry, rows_ok, Layout};
use crate::shape_count::lemma_flat;
use crate::utf8::announced_len;
use vstd::prelude::*;

verus! {

/// The chains of skipping states are right for the first `upto` states: each
/// default among them has a chain, and each chain leads to the state that
/// holds its number.
pub open spec fn chains_ok(
    default: Seq<usize>,
    chain: Seq<Option<usize>>,
    owners: Seq<usize>,
    upto: int,
) -> bool {
    &&& chain.len() == default.len()
    &&& forall|d: int|
        0 <= d < chain.len() && (#[trigger] chain[d]) is Some ==> chain[d].unwrap() < owners.len()
            && owners[chain[d].unwrap() as int] == d
    &&& forall|s: int| 0 <= s < upto ==> chain[(#[trigger] default[s]) as int] is Some
    &&& forall|i: int|
        0 <= i < owners.len() ==> (#[trigger] owners[i]) < default.len() && chain[owners[i] as int]
            == Some(i as usize) && default.take(upto).contains(owners[i])
}

/// Gives a chain of skipping states to each state that follows some state on
/// a foreign code point, in the order in which they are met.
pub fn chains_of(default: &Vec<usize>) -> (r: (Vec<Option<usize>>, Vec<usize>))
    requires
        forall|s: int| 0 <= s < default@.len() ==> (#[trigger] default@[s]) < default@.len(),
    ensures
        chains_ok(default@, r.0@, r.1@, default@.len() as int),
{
    let n = default.len();
    let mut chain: Vec<Option<usize>> = Vec::new();
    let mut i: usize = 0;
    while i < n
        invariant
            i <= n,
            chain@.len() == i,
            forall|d: int| 0 <= d < i ==> (#[trigger] chain@[d]) is None,
        decreases n - i,
    {
        chain.push(None);
        i += 1;
    }
    let mut owners: Vec<usize> = Vec::new();
    let mut s: usize = 0;
    while s < n
        invariant
            n == default@.len(),
            s <= n,
            forall|x: int| 0 <= x < default@.len() ==> (#[trigger] default@[x]) < default@.len(),
            chains_ok(default@, chain@, owners@, s as int),
        decreases n - s,
    {
        let d = default[s];
        if chain[d].is_none() {
            let ghost had = chain@;
            let ghost held = owners@;
            let at = owners.len();
            chain.set(d, Some(at));
            owners.push(d);
            proof {
                assert forall|x: int| 0 <= x < chain@.len() && (#[trigger] chain@[x]) is Some implies chain@[x].unwrap()
                    < owners@.len() && owners@[chain@[x].unwrap() as int] == x by {
                    if x != d {
                        assert(chain@[x] == had[x]);
                        assert(owners@[had[x].unwrap() as int] == held[had[x].unwrap() as int]);
                    }
                }
                assert forall|x: int| 0 <= x < s + 1 implies chain@[(#[trigger] default@[x]) as int] is Some by {
                    if x < s && default@[x] != d {
                        assert(chain@[default@[x] as int] == had[default@[x] as int]);
                    }
                }
                assert forall|x: int| 0 <= x < owners@.len() implies (#[trigger] owners@[x])
                    < default@.len() && chain@[owners@[x] as int] == Some(x as usize)
                    && default@.take(s + 1).contains(owners@[x]) by {
                    if x < held.len() {
                        assert(owners@[x] == held[x]);
                        assert(had[held[x] as int] == Some(x as usize));
                        let w = choose|w: int|
                            0 <= w < default@.take(s as int).len() && default@.take(s as int)[w]
                                == held[x];
                        assert(default@.take(s + 1)[w] == held[x]);
                    } else {
                        assert(default@.take(s + 1)[s as int] == d);
                    }
                }
            }
        } else {
            proof {
                assert forall|x: int| 0 <= x < owners@.len() implies default@.take(s + 1).contains(
                    #[trigger] owners@[x],
                ) by {
                    let w = choose|w: int|
                        0 <= w < default@.take(s as int).len() && default@.take(s as int)[w]
                            == owners@[x];
                    assert(default@.take(s + 1)[w] == owners@[x]);
                }
            }
        }
        s += 1;
    }
    assert(default@.take(n as int) =~= default@);
    (chain, owners)
}

/// The exec data are what the layout says.
pub open spec fn lays(
    lay: Layout,
    letter_bytes: Seq<Vec<u8>>,
    prefixes: Seq<Vec<u8>>,
    default: Seq<usize>,
    succ: Seq<Vec<usize>>,
    chain: Seq<Option<usize>>,
) -> bool {
    &&& lay.letter_bytes == bytes_of(letter_bytes)
    &&& lay.prefixes == bytes_of(prefixes)
    &&& lay.default == default
    &&& lay.succ == rows_of(succ)
    &&& lay.chain == chain
}

/// The state that follows the state `s` at the prefix `t` on the byte `b`.
fn target(
    letter_bytes: &Vec<Vec<u8>>,
    prefixes: &Vec<Vec<u8>>,
    default: &Vec<usize>,
    succ: &Vec<Vec<usize>>,
    chain: &Vec<Option<usize>>,
    Ghost(lay): Ghost<Layout>,
    base: usize,
    total: usize,
    s: usize,
    t: usize,
    b: u8,
) -> (x: usize)
    requires
        lays(lay, letter_bytes@, prefixes@, default@, succ@, chain@),
        lay.wf(),
        base == lay.base(),
        total == lay.total(),
        s < lay.roots(),
        t < lay.nodes(),
    ensures
        x == lay.target_of(s as int, t as int, b),
        x < total,
{
    let nodes = prefixes.len();
    let mut w = copy_bytes(&prefixes[t]);
    w.push(b);
    assert(w@ == lay.prefixes[t as int].push(b));
    match find(letter_bytes, &w) {
        Some(i) => {
            proof {
                assert(lay.succ[s as int] == succ@[s as int]@);
                assert(lay.succ[s as int].len() == lay.letter_bytes.len());
            }
            let to = succ[s][i];
            proof {
                assert(lay.letter_bytes[i as int] == w@);
                assert(lay.letter_bytes.contains(w@));
                let j = lay.letter_bytes.index_of(w@);
                assert(j == i);
                assert(lay.succ[s as int][i as int] == to);
                lemma_flat(to as int, 0, lay.roots(), lay.nodes());
            }
            to * nodes
        },
        None => {
            match find(prefixes, &w) {
                Some(t2) => {
                    proof {
                        assert(lay.prefixes[t2 as int] == w@);
                        assert(lay.prefixes.contains(w@));
                        let j = lay.prefixes.index_of(w@);
                        assert(j == t2);
                        lemma_flat(s as int, t2 as int, lay.roots(), lay.nodes());
                    }
                    s * nodes + t2
                },
                None => {
                    let d = default[s];
                    let whole = announced_len(w[0]);
                    proof {
                        lemma_flat(d as int, 0, lay.roots(), lay.nodes());
                        assert(lay.default[s as int] == d);
                        assert(lay.chain[d as int] is Some);
                    }
                    if w.len() >= whole {
                        d * nodes
                    } else {
                        let more = whole - w.len();
                        base + 3 * chain[d].unwrap() + (more - 1)
                    }
                },
            }
        },
    }
}

/// The row of the state `s` at the prefix `t`.
fn node_row(
    letter_bytes: &Vec<Vec<u8>>,
    prefixes: &Vec<Vec<u8>>,
    default: &Vec<usize>,
    succ: &Vec<Vec<usize>>,
    chain: &Vec<Option<usize>>,
    Ghost(lay): Ghost<Layout>,
    base: usize,
    total: usize,
    s: usize,
    t: usize,
) -> (row: Vec<usize>)
    requires
        lays(lay, letter_bytes@, prefixes@, default@, succ@, chain@),
        lay.wf(),
        base == lay.base(),
        total == lay.total(),
        s < lay.roots(),
        t < lay.nodes(),
    ensures
        row@.len() == 256,
        forall|b: u8| (#[trigger] row@[b as int]) == lay.target_of(s as int, t as int, b),
        forall|j: int| 0 <= j < 256 ==> (#[trigger] row@[j]) < total,
{
    let mut row: Vec<usize> = Vec::new();
    let mut j: usize = 0;
    while j < 256
        invariant
            lays(lay, letter_bytes@, prefixes@, default@, succ@, chain@),
            lay.wf(),
            base == lay.base(),
            total == lay.total(),
            s < lay.roots(),
            t < lay.nodes(),
            j <= 256,
            row@.len() == j,
            forall|b: u8|
                b < j ==> (#[trigger] row@[b as int]) == lay.target_of(s as int, t as int, b),
            forall|q: int| 0 <= q < j ==> (#[trigger] row@[q]) < total,
        decreases 256 - j,
    {
        let x = target(
            letter_bytes,
            prefixes,
            default,
            succ,
            chain,
            Ghost(lay),
            base,
            total,
            s,
            t,
            j as u8,
        );
        row.push(x);
        j += 1;
    }
    row
}

/// A row that holds `x` for every byte.
fn even_row(x: usize) -> (row: Vec<usize>)
    ensures
        row@.len() == 256,
        forall|j: int| 0 <= j < 256 ==> (#[trigger] row@[j]) == x,
{
    let mut row: Vec<usize> = Vec::new();
    let mut j: usize = 0;
    while j < 256
        invariant
            j <= 256,
            row@.len() == j,
            forall|q: int| 0 <= q < j ==> (#[trigger] row@[q]) == x,
        decreases 256 - j,
    {
        row.push(x);
        j += 1;
    }
    row
}

/// Appends one row of zeros.
fn push_row(table: &mut Vec<usize>)
    requires
        forall|i: int| 0 <= i < old(table)@.len() ==> (#[trigger] old(table)@[i]) == 0,
    ensures
        final(table)@.len() == old(table)@.len() + 256,
        forall|i: int| 0 <= i < final(table)@.len() ==> (#[trigger] final(table)@[i]) == 0,
{
    let mut j: usize = 0;
    while j < 256
        invariant
            j <= 256,
            table@.len() == old(table)@.len() + j,
            forall|i: int| 0 <= i < table@.len() ==> (#[trigger] table@[i]) == 0,
        decreases 256 - j,
    {
        table.push(0);
        j += 1;
    }
}

/// Puts `row` in the place of the row `id`.
fn write_row(table: &mut Vec<usize>, id: usize, row: &Vec<usize>)
    requires
        row@.len() == 256,
        id * 256 + 256 <= old(table)@.len(),
    ensures
        final(table)@.len() == old(table)@.len(),
        forall|j: int| 0 <= j < 256 ==> final(table)@[id * 256 + j] == row@[j],
        forall|x: int|
            0 <= x < old(table)@.len() && !(id * 256 <= x < id * 256 + 256) ==> final(table)@[x]
                == old(table)@[x],
{
    let size = table.len();
    let mut j: usize = 0;
    while j < 256
        invariant
            row@.len() == 256,
            size == old(table)@.len(),
            id * 256 + 256 <= size,
            j <= 256,
            table@.len() == size,
            forall|q: int| 0 <= q < j ==> table@[id * 256 + q] == row@[q],
            forall|x: int|
                0 <= x < size && !(id * 256 <= x < id * 256 + 256) ==> table@[x] == old(table)@[x],
        decreases 256 - j,
    {
        table.set(id * 256 + j, row[j]);
        j += 1;
    }
}

/// The rows before the state `s` at the prefix `t` hold what they should.
pub open spec fn filled(table: Seq<usize>, lay: Layout, s: int, t: int) -> bool {
    forall|p: int, q: int, b: u8|
        0 <= p < lay.roots() && 0 <= q < lay.nodes() && (p < s || (p == s && q < t))
            ==> #[trigger] entry(table, lay.node_id(p, q), b) == lay.target_of(p, q, b)
}

/// The rows before the skipping state `r` of the chain `i` hold what they should.
pub open spec fn chained(table: Seq<usize>, lay: Layout, i: int, r: int) -> bool {
    forall|p: int, q: int, b: u8|
        0 <= p < lay.owners.len() && 1 <= q <= 3 && (p < i || (p == i && q < r))
            ==> #[trigger] entry(table, lay.chain_id(p, q), b) == lay.chain_target(p, q)
}

/// Every entry names a state.
pub open spec fn bounded(table: Seq<usize>, total: int) -> bool {
    forall|i: int| 0 <= i < table.len() ==> (#[trigger] table[i]) < total
}

/// A table of zeros with a row for each state, and the numbers of the first
/// skipping state and of all states.
fn blank_table(roots: usize, nodes: usize, chains: usize) -> (r: (Vec<usize>, usize, usize))
    ensures
        r.1 == roots * nodes,
        r.2 == roots * nodes + 3 * chains,
        r.0@.len() == r.2 * 256,
        forall|i: int| 0 <= i < r.0@.len() ==> (#[trigger] r.0@[i]) == 0,
{
    let mut table: Vec<usize> = Vec::new();
    let mut made: usize = 0;
    let mut s: usize = 0;
    assert(0 == 0 * nodes) by (nonlinear_arith);
    while s < roots
        invariant
            s <= roots,
            made == s * nodes,
            table@.len() == made * 256,
            forall|i: int| 0 <= i < table@.len() ==> (#[trigger] table@[i]) == 0,
        decreases roots - s,
    {
        let mut t: usize = 0;
        while t < nodes
            invariant
                s < roots,
                t <= nodes,
                made == s * nodes + t,
                table@.len() == made * 256,
                forall|i: int| 0 <= i < table@.len() ==> (#[trigger] table@[i]) == 0,
            decreases nodes - t,
        {
            push_row(&mut table);
            let size = table.len();
            made += 1;
            t += 1;
        }
        proof {
            lemma_flat(s as int, 0, s + 1, nodes as int + 1);
            assert((s + 1) * nodes == s * nodes + nodes) by (nonlinear_arith);
        }
        s += 1;
    }
    let base = made;
    let mut i: usize = 0;
    while i < chains
        invariant
            i <= chains,
            base == roots * nodes,
            made == base + 3 * i,
            table@.len() == made * 256,
            forall|x: int| 0 <= x < table@.len() ==> (#[trigger] table@[x]) == 0,
        decreases chains - i,
    {
        push_row(&mut table);
        push_row(&mut table);
        push_row(&mut table);
        let size = table.len();
        made += 3;
        i += 1;
    }
    (table, base, made)
}

/// The table for a layout.
pub fn build_table(
    letter_bytes: &Vec<Vec<u8>>,
    prefixes: &Vec<Vec<u8>>,
    default: &Vec<usize>,
    succ: &Vec<Vec<usize>>,
    chain: &Vec<Option<usize>>,
    owners: &Vec<usize>,
    Ghost(lay): Ghost<Layout>,
) -> (r: (Vec<usize>, usize))
    requires
        lays(lay, letter_bytes@, prefixes@, default@, succ@, chain@),
        lay.owners == owners@,
        lay.wf(),
        lay.roots() >= 1,
    ensures
        rows_ok(r.0@, lay),
        r.1 == lay.total(),
{
    let roots = default.len();
    let nodes = prefixes.len();
    let chains = owners.len();
    let (mut table, base, total) = blank_table(roots, nodes, chains);
    proof {
        assert(roots * nodes >= 1) by (nonlinear_arith)
            requires
                roots >= 1,
                nodes >= 1,
        ;
    }
    let mut s: usize = 0;
    while s < roots
        invariant
            lays(lay, letter_bytes@, prefixes@, default@, succ@, chain@),
            lay.owners == owners@,
            lay.wf(),
            roots == lay.roots(),
            nodes == lay.nodes(),
            chains == lay.owners.len(),
            base == lay.base(),
            total == lay.total(),
            total >= 1,
            s <= roots,
            table@.len() == total * 256,
            bounded(table@, total as int),
            filled(table@, lay, s as int, 0),
        decreases roots - s,
    {
        let mut t: usize = 0;
        while t < nodes
            invariant
                lays(lay, letter_bytes@, prefixes@, default@, succ@, chain@),
                lay.owners == owners@,
                lay.wf(),
                roots == lay.roots(),
                nodes == lay.nodes(),
                chains == lay.owners.len(),
                base == lay.base(),
                total == lay.total(),
                s < roots,
                t <= nodes,
                table@.len() == total * 256,
                bounded(table@, total as int),
                filled(table@, lay, s as int, t as int),
            decreases nodes - t,
        {
            let row = node_row(
                letter_bytes,
                prefixes,
                default,
                succ,
                chain,
                Ghost(lay),
                base,
                total,
                s,
                t,
            );
            proof {
                lemma_flat(s as int, t as int, roots as int, nodes as int);
            }
            let id = s * nodes + t;
            let ghost before = table@;
            write_row(&mut table, id, &row);
            proof {
                assert forall|p: int, q: int, b: u8|
                    0 <= p < lay.roots() && 0 <= q < lay.nodes() && (p < s || (p == s && q < t
                        + 1)) implies #[trigger] entry(table@, lay.node_id(p, q), b)
                    == lay.target_of(p, q, b) by {
                    if p == s && q == t {
                        assert(table@[id * 256 + b as int] == row@[b as int]);
                    } else {
                        if p < s {
                            lemma_flat(p, q, s as int, nodes as int);
                        }
                        assert(entry(before, lay.node_id(p, q), b) == lay.target_of(p, q, b));
                    }
                }
                assert forall|x: int| 0 <= x < table@.len() implies (#[trigger] table@[x]) < total by {
                    if id * 256 <= x < id * 256 + 256 {
                        assert(table@[id * 256 + (x - id * 256)] == row@[x - id * 256]);
                    } else {
                        assert(table@[x] == before[x]);
                    }
                }
            }
            t += 1;
        }
        s += 1;
    }
    let mut i: usize = 0;
    while i < chains
        invariant
            lay.owners == owners@,
            lay.wf(),
            roots == lay.roots(),
            nodes == lay.nodes(),
            chains == lay.owners.len(),
            base == lay.base(),
            total == lay.total(),
            i <= chains,
            table@.len() == total * 256,
            bounded(table@, total as int),
            filled(table@, lay, roots as int, 0),
            chained(table@, lay, i as int, 1),
        decreases chains - i,
    {
        let owner = owners[i];
        proof {
            lemma_flat(owner as int, 0, roots as int, nodes as int);
        }
        let mut r: usize = 1;
        while r <= 3
            invariant
                lay.owners == owners@,
                lay.wf(),
                roots == lay.roots(),
                nodes == lay.nodes(),
                chains == lay.owners.len(),
                base == lay.base(),
                total == lay.total(),
                i < chains,
                owner == owners@[i as int],
                owner * nodes < base,
                1 <= r <= 4,
                table@.len() == total * 256,
                bounded(table@, total as int),
                filled(table@, lay, roots as int, 0),
                chained(table@, lay, i as int, r as int),
            decreases 4 - r,
        {
            let id = base + 3 * i + (r - 1);
            let to = if r == 1 {
                owner * nodes
            } else {
                id - 1
            };
            let row = even_row(to);
            let ghost before = table@;
            write_row(&mut table, id, &row);
            proof {
                assert forall|p: int, q: int, b: u8|
                    0 <= p < lay.owners.len() && 1 <= q <= 3 && (p < i || (p == i && q < r + 1)) implies #[trigger] entry(
                    table@,
                    lay.chain_id(p, q),
                    b,
                ) == lay.chain_target(p, q) by {
                    if p == i && q == r {
                        assert(table@[id * 256 + b as int] == row@[b as int]);
                    } else {
                        assert(entry(before, lay.chain_id(p, q), b) == lay.chain_target(p, q));
                    }
                }
                assert forall|p: int, q: int, b: u8|
                    0 <= p < lay.roots() && 0 <= q < lay.nodes() implies #[trigger] entry(
                    table@,
                    lay.node_id(p, q),
                    b,
                ) == lay.target_of(p, q, b) by {
                    lemma_flat(p, q, roots as int, nodes as int);
                    assert(entry(before, lay.node_id(p, q), b) == lay.target_of(p, q, b));
                }
                assert forall|x: int| 0 <= x < table@.len() implies (#[trigger] table@[x]) < total by {
                    if id * 256 <= x < id * 256 + 256 {
                        assert(table@[id * 256 + (x - id * 256)] == row@[x - id * 256]);
                    } else {
                        assert(table@[x] == before[x]);
                    }
                }
            }
            r += 1;
        }
        i += 1;
    }
    (table, total)
}

} // verus!
