//! Holding the automaton against an independent implementation of
//! Levenshtein's distance.

use crate::distance::{make_distance, saturated, Distance};
use crate::edit_distance::edit_distance;
use crate::levenshtein_nfa::LevenshteinNFA;
use crate::metric::lemma_symmetry;
use vstd::prelude::*;

verus! {

/// `levenshtein::levenshtein` of the crate `levenshtein`: the least number of
/// code points to insert, to delete or to replace by another that turns `a`
/// into `b`. The crate computes it over the code points of both strings, row
/// by row of the table that [`edit_distance`] names; that its result is this
/// number is taken on trust.
#[verifier::external_body]
fn reference_distance(a: &str, b: &str) -> (d: usize)
    ensures
        d == edit_distance(a@, b@, false),
{
    levenshtein::levenshtein(a, b)
}

/// Whether `lev` reports `expected` for `left` against `right` and for
/// `right` against `left`.
pub fn test_symmetric(lev: &LevenshteinNFA, left: &str, right: &str, expected: Distance) -> (ok:
    bool)
    requires
        lev.wf(),
    ensures
        ok == (saturated(edit_distance(left@, right@, lev.transposition()), lev.ceiling())
            == expected),
{
    proof {
        lemma_symmetry(left@, right@, lev.transposition(), lev.ceiling());
    }
    let forth = lev.compute_distance(left, right);
    let back = lev.compute_distance(right, left);
    forth == expected && back == expected
}

/// The reports for the distance `n` and for its lowest eight bits are the
/// same under the ceiling `m`.
pub open spec fn survives(n: nat, m: u8) -> bool {
    saturated(n, m) == saturated(n % 256, m)
}

/// Whether the automata for the ceilings zero to three, without
/// transposition, report for `left` and `right` what the reference distance,
/// cut to eight bits, gives. They do unless the cut brings a distance of four
/// or more below four.
pub fn test_levenshtein_nfa_util(left: &str, right: &str) -> (ok: bool)
    ensures
        ok == (edit_distance(left@, right@, false) < 4 || edit_distance(left@, right@, false) % 256
            >= 4),
{
    let ghost n = edit_distance(left@, right@, false);
    let expected: u8 = (reference_distance(left, right) % 256) as u8;
    let mut ok = true;
    let mut m: u8 = 0;
    while m < 4
        invariant
            m <= 4,
            n == edit_distance(left@, right@, false),
            expected == n % 256,
            ok == (forall|x: u8| x < m ==> survives(n, x)),
        decreases 4 - m,
    {
        let expected_distance = make_distance(expected, m);
        let agrees = match LevenshteinNFA::levenshtein(m, false) {
            Ok(lev) => test_symmetric(&lev, left, right, expected_distance),
            Err(_) => false,
        };
        assert(agrees == survives(n, m));
        ok = ok && agrees;
        m += 1;
    }
    proof {
        if n < 4 || n % 256 >= 4 {
            assert forall|x: u8| x < 4 implies survives(n, x) by {}
        } else {
            assert(!survives(n, 3));
        }
    }
    ok
}

} // verus!
