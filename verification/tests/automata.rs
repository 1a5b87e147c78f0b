use levenshtein_automata::{
    make_distance, test_levenshtein_nfa_util, test_symmetric, Distance, LevenshteinError,
    LevenshteinNFA, ParametricDFA, ParametricState, DFA,
};

fn nfa(max_distance: u8, transposition: bool) -> LevenshteinNFA {
    LevenshteinNFA::levenshtein(max_distance, transposition).unwrap()
}

fn dfa_for(query: &str, max_distance: u8, transposition: bool) -> DFA {
    ParametricDFA::from_nfa(&nfa(max_distance, transposition)).build_dfa(query)
}

#[test]
fn test_levenshtein() {
    assert!(test_levenshtein_nfa_util("abc", "abc"));
    assert!(test_levenshtein_nfa_util("abc", "abcd"));
    assert!(test_levenshtein_nfa_util("aab", "ab"));
}

#[test]
fn test_damerau() {
    let nfa = nfa(2, true);
    assert!(test_symmetric(&nfa, "abc", "abc", Distance::Exact(0)));
    assert!(test_symmetric(&nfa, "abc", "abcd", Distance::Exact(1)));
    assert!(test_symmetric(&nfa, "abcdef", "abddef", Distance::Exact(1)));
    assert!(test_symmetric(&nfa, "abcdef", "abdcef", Distance::Exact(1)));
}

#[test]
fn test_levenshtein_dfa() {
    let nfa = nfa(2, false);
    let parametric_dfa = ParametricDFA::from_nfa(&nfa);
    let dfa = parametric_dfa.build_dfa("abcabcaaabc");
    assert_eq!(dfa.num_states(), 317);
}

#[test]
fn test_utf8_simple() {
    let nfa = nfa(1, false);
    let parametric_dfa = ParametricDFA::from_nfa(&nfa);
    let dfa = parametric_dfa.build_dfa("あ");
    assert_eq!(dfa.eval("あ"), Distance::Exact(0u8));
    assert_eq!(dfa.eval("ぃ"), Distance::Exact(1u8));
}

#[test]
fn test_simple() {
    let q: &str = "abcdef";
    let nfa = nfa(2, false);
    let parametric_dfa = ParametricDFA::from_nfa(&nfa);
    let dfa = parametric_dfa.build_dfa(q);
    assert_eq!(dfa.eval(q), Distance::Exact(0u8));
    assert_eq!(dfa.eval("abcdf"), Distance::Exact(1u8));
    assert_eq!(dfa.eval("abcdgf"), Distance::Exact(1u8));
    assert_eq!(dfa.eval("abccdef"), Distance::Exact(1u8));
}

#[test]
fn test_jp() {
    let q: &str = "寿司は焦げられない";
    let nfa = nfa(2, false);
    let parametric_dfa = ParametricDFA::from_nfa(&nfa);
    let dfa = parametric_dfa.build_dfa(q);
    assert_eq!(dfa.eval(q), Distance::Exact(0u8));
    assert_eq!(dfa.eval("寿司は焦げられな"), Distance::Exact(1u8));
    assert_eq!(dfa.eval("寿司は焦げられなI"), Distance::Exact(1u8));
    assert_eq!(dfa.eval("寿司は焦げられなIい"), Distance::Exact(1u8));
}

#[test]
fn test_jp2() {
    let q: &str = "寿a";
    let nfa = nfa(1, false);
    let parametric_dfa = ParametricDFA::from_nfa(&nfa);
    let dfa = parametric_dfa.build_dfa(q);
    assert_eq!(dfa.eval(q), Distance::Exact(0u8));
}

#[test]
fn make_distance_saturates_above_the_ceiling() {
    assert_eq!(make_distance(0, 2), Distance::Exact(0));
    assert_eq!(make_distance(2, 2), Distance::Exact(2));
    assert_eq!(make_distance(3, 2), Distance::AtLeast(3));
    assert_eq!(make_distance(200, 0), Distance::AtLeast(1));
    assert_eq!(make_distance(0, 0), Distance::Exact(0));
}

#[test]
fn distances_are_ordered() {
    assert!(Distance::Exact(0).is_less_than(&Distance::Exact(1)));
    assert!(!Distance::Exact(1).is_less_than(&Distance::Exact(1)));
    assert!(Distance::Exact(3).is_less_than(&Distance::AtLeast(4)));
    assert!(!Distance::AtLeast(4).is_less_than(&Distance::Exact(3)));
    assert_eq!(Distance::Exact(2).to_u8(), 2);
    assert_eq!(Distance::AtLeast(4).to_u8(), 4);
    let all = [Distance::Exact(0), Distance::Exact(3), Distance::AtLeast(1), Distance::AtLeast(4)];
    for a in &all {
        for b in &all {
            assert_eq!(a.is_less_than(b), a < b);
        }
    }
}

#[test]
fn ceiling_above_the_limit_is_refused() {
    assert_eq!(LevenshteinNFA::levenshtein(4, false).err(), Some(LevenshteinError::InvalidCeiling));
    assert_eq!(LevenshteinNFA::levenshtein(255, true).err(), Some(LevenshteinError::InvalidCeiling));
    assert!(LevenshteinNFA::levenshtein(3, true).is_ok());
    assert!(LevenshteinNFA::levenshtein(0, false).is_ok());
}

#[test]
fn empty_query_counts_insertions() {
    let dfa = dfa_for("", 2, false);
    assert_eq!(dfa.eval(""), Distance::Exact(0));
    assert_eq!(dfa.eval("a"), Distance::Exact(1));
    assert_eq!(dfa.eval("ab"), Distance::Exact(2));
    assert_eq!(dfa.eval("abc"), Distance::AtLeast(3));
    assert_eq!(dfa.eval("寿司"), Distance::Exact(2));
}

#[test]
fn ceiling_zero_tells_equal_from_different() {
    let dfa = dfa_for("abc", 0, false);
    assert_eq!(dfa.eval("abc"), Distance::Exact(0));
    assert_eq!(dfa.eval("abd"), Distance::AtLeast(1));
    assert_eq!(dfa.eval(""), Distance::AtLeast(1));
    let lev = nfa(0, false);
    assert_eq!(lev.compute_distance("abc", "abc"), Distance::Exact(0));
    assert_eq!(lev.compute_distance("abc", "ab"), Distance::AtLeast(1));
}

#[test]
fn saturation_at_each_ceiling() {
    // The distance between "kitten" and "sitting" is three.
    for k in 0u8..4u8 {
        let expected = make_distance(3, k);
        let lev = nfa(k, false);
        assert_eq!(lev.compute_distance("kitten", "sitting"), expected);
        let parametric = ParametricDFA::from_nfa(&lev);
        assert_eq!(parametric.compute_distance("kitten", "sitting"), expected);
        assert_eq!(parametric.build_dfa("kitten").eval("sitting"), expected);
        assert_eq!(parametric.build_dfa("sitting").eval("kitten"), expected);
    }
    assert!(test_levenshtein_nfa_util("kitten", "sitting"));
}

#[test]
fn long_candidates_saturate() {
    let dfa = dfa_for("abc", 3, false);
    assert_eq!(dfa.eval("abcdefghijklmnop"), Distance::AtLeast(4));
    assert_eq!(dfa.eval("xyz"), Distance::Exact(3));
    assert_eq!(dfa.eval("xyzw"), Distance::AtLeast(4));
    let lev = nfa(3, false);
    assert_eq!(lev.compute_distance("abcdefghijklmnop", "abc"), Distance::AtLeast(4));
}

#[test]
fn transposition_counts_one_with_damerau_and_two_without() {
    let plain = dfa_for("abcdef", 2, false);
    let damerau = dfa_for("abcdef", 2, true);
    assert_eq!(plain.eval("abdcef"), Distance::Exact(2));
    assert_eq!(damerau.eval("abdcef"), Distance::Exact(1));
    assert_eq!(damerau.eval("abddef"), Distance::Exact(1));
    assert_eq!(dfa_for("ab", 2, true).eval("ba"), Distance::Exact(1));
    assert_eq!(dfa_for("ab", 2, false).eval("ba"), Distance::Exact(2));
    let parametric = ParametricDFA::from_nfa(&nfa(2, true));
    assert_eq!(parametric.compute_distance("abcdef", "abdcef"), Distance::Exact(1));
    assert_eq!(parametric.compute_distance("abcdef", "abddef"), Distance::Exact(1));
    assert_eq!(parametric.compute_distance("寿司", "司寿"), Distance::Exact(1));
}

#[test]
fn swapped_units_are_not_edited_again() {
    // Swapping "ca" to "ac" and then putting "b" between the two is no
    // way from "ca" to "abc": a swapped pair stays together.
    let lev = nfa(3, true);
    assert_eq!(lev.compute_distance("ca", "abc"), Distance::Exact(3));
    assert_eq!(lev.compute_distance("abc", "ca"), Distance::Exact(3));
    assert_eq!(dfa_for("abc", 3, true).eval("ca"), Distance::Exact(3));
    assert_eq!(dfa_for("ca", 3, true).eval("abc"), Distance::Exact(3));
}

#[test]
fn distance_is_symmetric() {
    for &(a, b) in &[("abc", "abcd"), ("寿司", "寿"), ("", "ab"), ("abcd", "dcba"), ("ab", "ba")] {
        for k in 0u8..4u8 {
            for &t in &[false, true] {
                let parametric = ParametricDFA::from_nfa(&nfa(k, t));
                assert_eq!(parametric.build_dfa(a).eval(b), parametric.build_dfa(b).eval(a));
                assert_eq!(parametric.compute_distance(a, b), parametric.compute_distance(b, a));
            }
        }
    }
}

#[test]
fn triangle_inequality_on_numbers() {
    let words = ["", "a", "ab", "abc", "bca", "abcd", "xbcd", "寿司"];
    let lev = nfa(3, false);
    for a in &words {
        for b in &words {
            for c in &words {
                let ac = lev.compute_distance(a, c).to_u8() as u32;
                let ab = lev.compute_distance(a, b).to_u8() as u32;
                let bc = lev.compute_distance(b, c).to_u8() as u32;
                assert!(ac <= ab + bc);
            }
        }
    }
}

#[test]
fn distances_count_code_points_not_bytes() {
    // One code point of three bytes replaced by one of one byte is one edit.
    let dfa = dfa_for("寿司", 2, false);
    assert_eq!(dfa.eval("寿a"), Distance::Exact(1));
    assert_eq!(dfa.eval("a司"), Distance::Exact(1));
    assert_eq!(dfa.eval("ab"), Distance::Exact(2));
    // Code points that share their first bytes are still different.
    let dfa = dfa_for("あ", 1, false);
    assert_eq!(dfa.eval("い"), Distance::Exact(1));
    assert_eq!(dfa.eval("あい"), Distance::Exact(1));
    assert_eq!(dfa.eval("é"), Distance::Exact(1));
    assert_eq!(dfa.eval("𝄞"), Distance::Exact(1));
    assert_eq!(dfa.eval("𝄞あ"), Distance::Exact(1));
    assert_eq!(dfa.eval("𝄞é"), Distance::AtLeast(2));
    let dfa = dfa_for("𝄞é", 1, false);
    assert_eq!(dfa.eval("𝄞é"), Distance::Exact(0));
    assert_eq!(dfa.eval("𝄟é"), Distance::Exact(1));
    assert_eq!(dfa.eval("é"), Distance::Exact(1));
}

#[test]
fn parametric_automaton_has_the_known_number_of_shapes() {
    assert_eq!(ParametricDFA::from_nfa(&nfa(0, false)).num_states(), 2);
    assert_eq!(ParametricDFA::from_nfa(&nfa(1, false)).num_states(), 6);
    assert_eq!(ParametricDFA::from_nfa(&nfa(2, false)).num_states(), 31);
    assert_eq!(ParametricDFA::from_nfa(&nfa(3, false)).num_states(), 197);
}

#[test]
fn parametric_automaton_walks_by_hand() {
    let parametric = ParametricDFA::from_nfa(&nfa(1, false));
    let start = ParametricDFA::initial_state();
    assert_eq!(start, ParametricState { shape_id: 0, offset: 0 });
    assert_eq!(parametric.distance(start, 0), Distance::Exact(0));
    assert_eq!(parametric.distance(start, 1), Distance::Exact(1));
    assert_eq!(parametric.distance(start, 2), Distance::AtLeast(2));
    // A match moves the base by one and keeps the start shape.
    let step = parametric.transition(start, 1);
    let next = step.apply(start, 5);
    assert_eq!(next, ParametricState { shape_id: 0, offset: 1 });
    // The dead end stays where it is.
    let dead = ParametricState::empty();
    assert!(dead.is_dead_end());
    let step = parametric.transition(dead, 0);
    assert_eq!(step.apply(dead, 5), dead);
    assert_eq!(parametric.distance(dead, 0), Distance::AtLeast(2));
}

#[test]
fn automaton_can_be_walked_byte_by_byte() {
    let dfa = dfa_for("abc", 1, false);
    let mut state = dfa.initial_state();
    assert_eq!(state, 0);
    for b in "abd".bytes() {
        state = dfa.transition(state, b);
        assert!(state < dfa.num_states());
    }
    assert_eq!(dfa.distance(state), Distance::Exact(1));
    assert_eq!(dfa.distance(state), dfa.eval("abd"));
}

#[test]
fn automaton_sizes() {
    assert_eq!(dfa_for("", 2, false).num_states(), 13);
    assert_eq!(dfa_for("a", 2, false).num_states(), 32);
    assert_eq!(dfa_for("あ", 2, false).num_states(), 54);
    assert_eq!(dfa_for("寿a", 2, false).num_states(), 102);
}
