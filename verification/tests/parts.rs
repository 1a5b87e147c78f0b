use levenshtein_automata::alphabet::{alphabet_of, find, prefixes_of};
use levenshtein_automata::edit_distance::table_distance;
use levenshtein_automata::levenshtein_nfa::characteristic_vector;
use levenshtein_automata::sample::comes_first;
use levenshtein_automata::text::to_chars;
use levenshtein_automata::utf8::{announced_len, encodings_of};
use levenshtein_automata::{
    combinations, generate_permutations, make_distance, remap, test_levenshtein_nfa_util, Distance,
    LevenshteinNFA, MultiState, NFAState, ParametricDFA, TestSample,
};
use std::cell::Cell;

fn state(offset: u32, distance: u8, in_transpose: bool) -> NFAState {
    NFAState { offset, distance, in_transpose }
}

#[test]
fn subsumption_between_states() {
    assert!(state(1, 0, false).imply(state(1, 0, false)));
    assert!(state(1, 0, false).imply(state(2, 1, false)));
    assert!(state(1, 0, false).imply(state(0, 1, false)));
    assert!(!state(1, 0, false).imply(state(3, 1, false)));
    assert!(!state(1, 1, false).imply(state(1, 0, false)));
    // A plain state one past a half-done swap needs an edit to spare.
    assert!(state(1, 0, false).imply(state(0, 1, true)));
    assert!(!state(1, 1, false).imply(state(0, 1, true)));
    assert!(state(0, 0, false).imply(state(0, 1, true)));
    assert!(!state(0, 1, true).imply(state(0, 1, false)));
    assert!(state(0, 1, true).imply(state(0, 2, true)));
    assert!(!state(0, 1, true).imply(state(1, 2, true)));
    assert!(state(0, 1, false).is_before(state(0, 1, true)));
    assert!(state(0, 2, false).is_before(state(1, 0, false)));
    assert!(!state(1, 0, false).is_before(state(1, 0, false)));
}

#[test]
fn adding_a_state_prunes() {
    let mut ms = MultiState::empty();
    assert_eq!(ms.len(), 0);
    ms.add_state(state(2, 1, false));
    ms.add_state(state(0, 1, false));
    assert_eq!(ms.states(), &vec![state(0, 1, false), state(2, 1, false)]);
    // Subsumed by (0, 1): not taken in.
    ms.add_state(state(1, 2, false));
    assert_eq!(ms.len(), 2);
    // Subsumes both members: they leave.
    ms.add_state(state(1, 0, false));
    assert_eq!(ms.states(), &vec![state(1, 0, false)]);
    assert_eq!(ms.get(0), state(1, 0, false));
    let copy = ms.duplicate();
    assert!(copy.same_as(&ms));
    ms.clear();
    assert_eq!(ms.len(), 0);
    assert!(!copy.same_as(&ms));
}

#[test]
fn normalizing_shifts_to_zero() {
    let mut ms = MultiState::empty();
    ms.add_state(state(5, 1, false));
    ms.add_state(state(3, 1, false));
    ms.add_state(state(4, 0, true));
    let shift = ms.normalize();
    assert_eq!(shift, 3);
    assert_eq!(ms.states(), &vec![state(0, 1, false), state(1, 0, true), state(2, 1, false)]);
    let mut empty = MultiState::empty();
    assert_eq!(empty.normalize(), 0);
}

#[test]
fn closing_costs_of_a_set() {
    let mut ms = MultiState::empty();
    ms.add_state(state(0, 1, false));
    ms.add_state(state(2, 0, false));
    assert_eq!(ms.min_error(2), 0);
    assert_eq!(ms.distance_at(2, 2), Distance::Exact(0));
    assert_eq!(ms.distance_at(3, 2), Distance::Exact(1));
    assert_eq!(ms.distance_at(0, 2), Distance::Exact(1));
    assert_eq!(ms.distance_at(5, 2), Distance::AtLeast(3));
    let empty = MultiState::empty();
    assert_eq!(empty.min_error(2), 3);
    assert_eq!(empty.distance_at(0, 2), Distance::AtLeast(3));
    // A half-done swap closes nothing.
    let mut swap = MultiState::empty();
    swap.add_state(state(0, 1, true));
    assert_eq!(swap.distance_at(0, 2), Distance::AtLeast(3));
    assert_eq!(swap.min_error(2), 1);
}

#[test]
fn one_step_of_the_automaton() {
    let lev = LevenshteinNFA::levenshtein(1, false).unwrap();
    assert_eq!(lev.max_distance(), 1);
    assert!(!lev.damerau());
    assert_eq!(lev.multistate_diameter(), 3);
    let start = lev.initial_states();
    assert_eq!(start.states(), &vec![state(0, 0, false)]);
    let mut next = MultiState::empty();
    // No position matches: insertion and substitution.
    lev.transition(&start, &mut next, 0b000);
    assert_eq!(next.states(), &vec![state(0, 1, false), state(1, 1, false)]);
    // The first position matches: the match subsumes the rest.
    lev.transition(&start, &mut next, 0b001);
    assert_eq!(next.states(), &vec![state(1, 0, false)]);
    // The second position matches: one deletion and a match.
    lev.transition(&start, &mut next, 0b010);
    assert_eq!(
        next.states(),
        &vec![state(0, 1, false), state(1, 1, false), state(2, 1, false)]
    );
    assert_eq!(lev.multistate_distance(&next, 2), Distance::Exact(1));
    assert_eq!(lev.multistate_distance(&next, 4), Distance::AtLeast(2));
    let damerau = LevenshteinNFA::levenshtein(1, true).unwrap();
    damerau.transition(&start, &mut next, 0b010);
    assert_eq!(
        next.states(),
        &vec![state(0, 1, false), state(0, 1, true), state(1, 1, false), state(2, 1, false)]
    );
    let mut after = MultiState::empty();
    damerau.transition(&next, &mut after, 0b001);
    assert_eq!(after.states(), &vec![state(1, 1, false), state(2, 1, false)]);
}

#[test]
fn characteristic_vectors() {
    let query = to_chars("abcabc");
    assert_eq!(characteristic_vector(&query, 'a', 0, 5), 0b01001);
    assert_eq!(characteristic_vector(&query, 'a', 1, 5), 0b00100);
    assert_eq!(characteristic_vector(&query, 'c', 4, 5), 0b00010);
    assert_eq!(characteristic_vector(&query, 'c', 6, 5), 0);
    assert_eq!(characteristic_vector(&query, 'x', 0, 7), 0);
    assert_eq!(characteristic_vector(&query, 'b', 0, 1), 0);
    assert_eq!(characteristic_vector(&query, 'a', 0, 1), 1);
}

#[test]
fn strings_as_code_points_and_bytes() {
    assert_eq!(to_chars("寿a"), vec!['寿', 'a']);
    assert_eq!(to_chars(""), Vec::<char>::new());
    assert_eq!(encodings_of("あa𝄞é"), vec![
        vec![0xe3u8, 0x81, 0x82],
        vec![0x61u8],
        vec![0xf0u8, 0x9d, 0x84, 0x9e],
        vec![0xc3u8, 0xa9],
    ]);
    assert_eq!(announced_len(0x61), 1);
    assert_eq!(announced_len(0xc3), 2);
    assert_eq!(announced_len(0xe3), 3);
    assert_eq!(announced_len(0xf0), 4);
    assert_eq!(announced_len(0x81), 1);
}

#[test]
fn letters_and_their_prefixes() {
    let query = to_chars("あいあa");
    let (letters, bytes) = alphabet_of(&query, &encodings_of("あいあa"));
    assert_eq!(letters, vec!['あ', 'い', 'a']);
    assert_eq!(bytes, vec![vec![0xe3u8, 0x81, 0x82], vec![0xe3u8, 0x81, 0x84], vec![0x61u8]]);
    let prefixes = prefixes_of(&bytes);
    assert_eq!(prefixes, vec![vec![], vec![0xe3u8], vec![0xe3u8, 0x81]]);
    assert_eq!(find(&prefixes, &vec![0xe3u8, 0x81]), Some(2));
    assert_eq!(find(&prefixes, &vec![0x81u8]), None);
}

#[test]
fn combinations_in_order() {
    let strings = combinations(&['a', 'b'], 2);
    assert_eq!(strings, vec!["a", "b", "aa", "ba", "ab", "bb"]);
    assert_eq!(combinations(&['a', 'b', 'c'], 3).len(), 3 + 9 + 27);
    assert_eq!(combinations(&['a'], 0), Vec::<String>::new());
    assert_eq!(combinations(&[], 2), Vec::<String>::new());
    assert_eq!(combinations(&['寿'], 2), vec!["寿", "寿寿"]);
}

#[test]
fn permutations_by_heaps_method() {
    let mut current = vec!['a', 'b', 'c'];
    let mut dest = Vec::new();
    generate_permutations(&mut current, 3, &mut dest);
    let found: Vec<String> = dest.iter().map(|p| p.iter().collect()).collect();
    assert_eq!(found, vec!["abc", "bac", "cab", "acb", "bca", "cba"]);
    assert_eq!(current, vec!['c', 'b', 'a']);

    let mut alphabet = vec!['あ', 'b', 'ぃ', 'a', 'え'];
    let mut all = Vec::new();
    generate_permutations(&mut alphabet, 5, &mut all);
    assert_eq!(all.len(), 120);
    let mut sorted = all.clone();
    sorted.sort();
    sorted.dedup();
    assert_eq!(sorted.len(), 120);

    // Only the first `n` items are arranged.
    let mut current = vec!['a', 'b', 'c'];
    let mut dest = vec![vec!['x']];
    generate_permutations(&mut current, 2, &mut dest);
    assert_eq!(dest, vec![vec!['x'], vec!['a', 'b', 'c'], vec!['b', 'a', 'c']]);
    let mut one = vec!['a'];
    let mut dest = Vec::new();
    generate_permutations(&mut one, 1, &mut dest);
    assert_eq!(dest, vec![vec!['a']]);
}

#[test]
fn remapping_letters() {
    assert_eq!(remap(&['x', 'y', 'z'], &String::from("abca")), "xyzx");
    assert_eq!(remap(&['あ', 'b', 'ぃ', 'a', 'え'], &String::from("edcba")), "えaぃbあ");
    assert_eq!(remap(&['x'], &String::new()), "");
}

#[test]
fn order_of_strings() {
    assert!(comes_first("", ""));
    assert!(comes_first("", "a"));
    assert!(!comes_first("a", ""));
    assert!(comes_first("ab", "ab"));
    assert!(comes_first("ab", "abc"));
    assert!(!comes_first("abc", "ab"));
    assert!(comes_first("ab", "b"));
    assert!(!comes_first("b", "ab"));
    assert_eq!(comes_first("寿", "司"), "寿" <= "司");
    assert_eq!(comes_first("司", "寿"), "司" <= "寿");
}

#[test]
fn samples_of_two_letters() {
    let sample = TestSample::with_num_chars(2);
    assert_eq!(sample.rights().len(), 5 + 25);
    assert_eq!(sample.rights()[0], "a");
    assert_eq!(sample.rights()[5], "aa");
    assert_eq!(sample.rights()[6], "ba");
    assert_eq!(sample.rights()[29], "ee");
    assert_eq!(sample.lefts(), &["a", "aa", "ab"]);
    let calls = Cell::new(0usize);
    sample.each(|left, right| {
        assert!(left <= right);
        calls.set(calls.get() + 1);
    });
    let mut expected = 0;
    for left in sample.lefts() {
        for right in sample.rights() {
            if left <= right {
                expected += 1;
            }
        }
    }
    assert_eq!(calls.get(), expected);
    assert!(expected > 0);
    assert_eq!(TestSample::with_num_chars(5).lefts().len(), 1 + 2 + 5 + 15 + 52);
    assert_eq!(TestSample::with_num_chars(0).rights().len(), 0);
}

#[test]
fn table_distance_by_hand() {
    let kitten = to_chars("kitten");
    let sitting = to_chars("sitting");
    assert_eq!(table_distance(&kitten, &sitting, false, 3), Distance::Exact(3));
    assert_eq!(table_distance(&kitten, &sitting, false, 2), Distance::AtLeast(3));
    assert_eq!(table_distance(&kitten, &kitten, true, 0), Distance::Exact(0));
    assert_eq!(table_distance(&[], &sitting, false, 200), Distance::Exact(7));
    assert_eq!(table_distance(&sitting, &[], false, 6), Distance::AtLeast(7));
    assert_eq!(table_distance(&[], &[], true, 0), Distance::Exact(0));
    let ab = to_chars("ab");
    let ba = to_chars("ba");
    assert_eq!(table_distance(&ab, &ba, false, 3), Distance::Exact(2));
    assert_eq!(table_distance(&ab, &ba, true, 3), Distance::Exact(1));
    assert_eq!(table_distance(&to_chars("ca"), &to_chars("abc"), true, 3), Distance::Exact(3));
    assert_eq!(table_distance(&to_chars("寿司は"), &to_chars("司寿は"), true, 3), Distance::Exact(1));
}

#[test]
fn table_distance_agrees_with_the_reference() {
    let strings = combinations(&['a', 'b', 'c'], 4);
    for left in strings.iter().step_by(3) {
        for right in &strings {
            let expected = levenshtein::levenshtein(left, right) as u8;
            for m in 0u8..5u8 {
                assert_eq!(
                    table_distance(&to_chars(left), &to_chars(right), false, m),
                    make_distance(expected, m)
                );
            }
        }
    }
}

#[test]
fn test_levenshtein_nfa_slow() {
    let test_sample = TestSample::with_num_chars(5);
    test_sample.each(|left, right| assert!(test_levenshtein_nfa_util(left, right)));
}

#[test]
fn test_levenshtein_parametric_dfa_slow() {
    let parametric_dfas: Vec<ParametricDFA> = (0u8..4u8)
        .map(|m| {
            let lev = LevenshteinNFA::levenshtein(m, false).unwrap();
            ParametricDFA::from_nfa(&lev)
        })
        .collect();
    let test_sample = TestSample::with_num_chars(5);
    test_sample.each(|left, right| {
        let expected = levenshtein::levenshtein(left, right) as u8;
        for m in 0u8..4u8 {
            let result_distance = parametric_dfas[m as usize].compute_distance(left, right);
            let expected_distance = make_distance(expected, m);
            assert_eq!(expected_distance, result_distance);
        }
    });
}

#[test]
fn test_levenshtein_dfa_exhaustive() {
    let parametric_dfas: Vec<ParametricDFA> = (0u8..4u8)
        .map(|m| ParametricDFA::from_nfa(&LevenshteinNFA::levenshtein(m, false).unwrap()))
        .collect();
    let test_sample = TestSample::with_num_chars(5);
    for left in test_sample.lefts() {
        for m in 0..4u8 {
            let dfa = parametric_dfas[m as usize].build_dfa(left);
            for right in test_sample.rights() {
                let expected = levenshtein::levenshtein(left, right) as u8;
                assert_eq!(make_distance(expected, m), dfa.eval(right));
            }
        }
    }
}

#[test]
fn test_levenshtein_nfa_small() {
    let test_sample = TestSample::with_num_chars(3);
    test_sample.each(|left, right| assert!(test_levenshtein_nfa_util(left, right)));
}

#[test]
fn test_levenshtein_parametric_dfa_small() {
    let parametric_dfas: Vec<ParametricDFA> = (0u8..4u8)
        .map(|m| ParametricDFA::from_nfa(&LevenshteinNFA::levenshtein(m, false).unwrap()))
        .collect();
    let test_sample = TestSample::with_num_chars(4);
    test_sample.each(|left, right| {
        let expected = levenshtein::levenshtein(left, right) as u8;
        for m in 0u8..4u8 {
            let result_distance = parametric_dfas[m as usize].compute_distance(left, right);
            assert_eq!(make_distance(expected, m), result_distance);
        }
    });
}

#[test]
fn test_levenshtein_dfa_small() {
    let test_sample = TestSample::with_num_chars(3);
    let parametric_dfas: Vec<ParametricDFA> = (0u8..4u8)
        .map(|m| ParametricDFA::from_nfa(&LevenshteinNFA::levenshtein(m, false).unwrap()))
        .collect();
    let mut alphabet = vec!['あ', 'b', 'ぃ', 'a', 'え'];
    let mut alternate_mappings = Vec::new();
    generate_permutations(&mut alphabet, 5, &mut alternate_mappings);
    for mapping in alternate_mappings.iter().step_by(40) {
        for left in test_sample.lefts() {
            let left = remap(mapping, left);
            for m in 0..4u8 {
                let dfa = parametric_dfas[m as usize].build_dfa(&left);
                for right in test_sample.rights() {
                    let right = remap(mapping, right);
                    let expected = levenshtein::levenshtein(&left, &right) as u8;
                    assert_eq!(make_distance(expected, m), dfa.eval(&right));
                }
            }
        }
    }
}

#[test]
fn test_damerau_small() {
    // The restricted distance with transposition, by its table.
    fn osa(a: &[char], b: &[char]) -> usize {
        let mut d = vec![vec![0usize; b.len() + 1]; a.len() + 1];
        for i in 0..=a.len() {
            d[i][0] = i;
        }
        for j in 0..=b.len() {
            d[0][j] = j;
        }
        for i in 1..=a.len() {
            for j in 1..=b.len() {
                let cost = if a[i - 1] == b[j - 1] { 0 } else { 1 };
                let mut best = (d[i - 1][j] + 1).min(d[i][j - 1] + 1).min(d[i - 1][j - 1] + cost);
                if i > 1 && j > 1 && a[i - 1] == b[j - 2] && a[i - 2] == b[j - 1] {
                    best = best.min(d[i - 2][j - 2] + 1);
                }
                d[i][j] = best;
            }
        }
        d[a.len()][b.len()]
    }
    let parametric_dfas: Vec<ParametricDFA> = (0u8..4u8)
        .map(|m| ParametricDFA::from_nfa(&LevenshteinNFA::levenshtein(m, true).unwrap()))
        .collect();
    let strings = combinations(&['a', 'b', 'c'], 4);
    for left in strings.iter().step_by(7) {
        let dfas: Vec<_> = parametric_dfas.iter().map(|p| p.build_dfa(left)).collect();
        let a = to_chars(left);
        for right in &strings {
            let expected = osa(&a, &to_chars(right)) as u8;
            for m in 0u8..4u8 {
                let lev = LevenshteinNFA::levenshtein(m, true).unwrap();
                let want = make_distance(expected, m);
                assert_eq!(table_distance(&a, &to_chars(right), true, m), want);
                assert_eq!(dfas[m as usize].eval(right), want);
                assert_eq!(parametric_dfas[m as usize].compute_distance(left, right), want);
                assert_eq!(lev.compute_distance(left, right), want);
            }
        }
    }
}
