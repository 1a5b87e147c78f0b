//! There are only so many canonical shapes: each is told apart by a number
//! below a fixed power of two, which bounds the search for them.

use crate::levenshtein_nfa::{windowed, MAX_DISTANCE};
use crate::multistate::{sorted, NFAState};
use vstd::arithmetic::power2::{lemma_pow2_pos, lemma_pow2_strictly_increases, lemma_pow2_unfold, pow2};
use vstd::prelude::*;
use vstd::set_lib::{lemma_int_range, lemma_len_subset, set_int_range};

verus! {

/// One more than the greatest rank of a state.
pub open spec fn ranks() -> nat {
    56
}

/// The place of a state among all states that a shape can hold; it grows with
/// the order of the states.
pub open spec fn rank(s: NFAState) -> nat {
    ((s.offset * 4 + s.distance) * 2 + if s.in_transpose {
        1int
    } else {
        0int
    }) as nat
}

/// Every member has a rank below [`ranks`].
pub open spec fn rankable(ms: Seq<NFAState>) -> bool {
    forall|i: int| 0 <= i < ms.len() ==> (#[trigger] ms[i]).offset <= 6 && ms[i].distance <= 3
}

/// The number that tells a shape apart: the sum of two to the rank of each
/// member.
pub open spec fn code(ms: Seq<NFAState>) -> nat
    decreases ms.len(),
{
    if ms.len() == 0 {
        0
    } else {
        code(ms.drop_last()) + pow2(rank(ms.last()))
    }
}

/// A set within the window is within the ranks.
pub proof fn lemma_windowed_rankable(ms: Seq<NFAState>, k: int)
    requires
        0 <= k <= MAX_DISTANCE,
        windowed(ms, k),
    ensures
        rankable(ms),
{
}

proof fn lemma_code_bound(ms: Seq<NFAState>)
    requires
        sorted(ms),
        rankable(ms),
        ms.len() > 0,
    ensures
        pow2(rank(ms.last())) <= code(ms) < pow2(rank(ms.last()) + 1),
    decreases ms.len(),
{
    let init = ms.drop_last();
    let top = rank(ms.last());
    lemma_pow2_unfold(top + 1);
    lemma_pow2_pos(top);
    assert(code(ms) == code(init) + pow2(top));
    if init.len() > 0 {
        assert forall|i: int, j: int| 0 <= i < j < init.len() implies (#[trigger] init[i]).precedes(
            #[trigger] init[j],
        ) by {
            assert(ms[i].precedes(ms[j]));
        }
        assert forall|i: int| 0 <= i < init.len() implies (#[trigger] init[i]).offset <= 6
            && init[i].distance <= 3 by {
            assert(init[i] == ms[i]);
        }
        lemma_code_bound(init);
        assert(init.last() == ms[ms.len() - 2]);
        assert(ms[ms.len() - 2].precedes(ms[ms.len() - 1]));
        let below = rank(init.last());
        if below + 1 < top {
            lemma_pow2_strictly_increases(below + 1, top);
        }
    }
}

proof fn lemma_code_injective(x: Seq<NFAState>, y: Seq<NFAState>)
    requires
        sorted(x),
        rankable(x),
        sorted(y),
        rankable(y),
        code(x) == code(y),
    ensures
        x == y,
    decreases x.len(),
{
    if x.len() == 0 {
        if y.len() > 0 {
            lemma_code_bound(y);
            lemma_pow2_pos(rank(y.last()));
        }
        assert(x =~= y);
    } else if y.len() == 0 {
        lemma_code_bound(x);
        lemma_pow2_pos(rank(x.last()));
    } else {
        lemma_code_bound(x);
        lemma_code_bound(y);
        let rx = rank(x.last());
        let ry = rank(y.last());
        if rx < ry {
            if rx + 1 < ry {
                lemma_pow2_strictly_increases(rx + 1, ry);
            }
        } else if ry < rx {
            if ry + 1 < rx {
                lemma_pow2_strictly_increases(ry + 1, rx);
            }
        }
        assert(rx == ry);
        assert(x.last() == y.last());
        lemma_code_injective(x.drop_last(), y.drop_last());
        assert(x =~= x.drop_last().push(x.last()));
        assert(y =~= y.drop_last().push(y.last()));
    }
}

/// The place of the entry `c` of the row `p` in a flat table of `rows` rows
/// of `stride` entries lies within the table, and each row begins where the
/// one before it ends.
pub proof fn lemma_flat(p: int, c: int, rows: int, stride: int)
    by (nonlinear_arith)
    requires
        0 <= p < rows,
        0 <= c < stride,
    ensures
        0 <= p * stride + c < rows * stride,
        (p + 1) * stride == p * stride + stride,
{
}

/// Distinct numbers from `0` up to `bound`: there are at most `bound` of them.
pub proof fn lemma_distinct_bounded(codes: Seq<int>, bound: int)
    requires
        0 <= bound,
        codes.no_duplicates(),
        forall|i: int| 0 <= i < codes.len() ==> 0 <= #[trigger] codes[i] < bound,
    ensures
        codes.len() <= bound,
{
    codes.unique_seq_to_set();
    lemma_int_range(0, bound);
    assert(codes.to_set().subset_of(set_int_range(0, bound))) by {
        assert forall|v: int| codes.to_set().contains(v) implies set_int_range(0, bound).contains(
            v,
        ) by {
            let i = choose|i: int| 0 <= i < codes.len() && codes[i] == v;
        }
    }
    lemma_len_subset(codes.to_set(), set_int_range(0, bound));
}

/// Distinct ordered shapes within the ranks: there are at most two to the
/// number of ranks of them.
pub proof fn lemma_shapes_bounded(shapes: Seq<Seq<NFAState>>)
    requires
        forall|p: int| 0 <= p < shapes.len() ==> sorted(#[trigger] shapes[p]) && rankable(shapes[p]),
        forall|p: int, q: int|
            0 <= p < shapes.len() && 0 <= q < shapes.len() && p != q ==> #[trigger] shapes[p]
                != #[trigger] shapes[q],
    ensures
        shapes.len() <= pow2(ranks()),
{
    let codes = Seq::new(shapes.len(), |p: int| code(shapes[p]) as int);
    assert forall|i: int| 0 <= i < codes.len() implies 0 <= #[trigger] codes[i] < pow2(ranks()) by {
        let ms = shapes[i];
        assert(sorted(ms) && rankable(ms));
        lemma_pow2_pos(ranks());
        if ms.len() > 0 {
            lemma_code_bound(ms);
            let top = rank(ms.last());
            if top + 1 < ranks() {
                lemma_pow2_strictly_increases(top + 1, ranks());
            }
        }
    }
    assert forall|i: int, j: int|
        0 <= i < codes.len() && 0 <= j < codes.len() && i != j implies codes[i] != codes[j] by {
        assert(sorted(shapes[i]) && rankable(shapes[i]));
        assert(sorted(shapes[j]) && rankable(shapes[j]));
        if codes[i] == codes[j] {
            lemma_code_injective(shapes[i], shapes[j]);
        }
    }
    lemma_distinct_bounded(codes, pow2(ranks()) as int);
}

} // verus!
