//! Levenshtein automata: for a fixed query and a distance ceiling, an automaton
//! that reads a candidate string and reports its edit distance to the query,
//! exactly up to the ceiling and saturated beyond it.
//!
//! The automaton is made in three steps. [`LevenshteinNFA`] says which states
//! follow a state when one code point is read. [`ParametricDFA`] finds, once
//! for a ceiling, the shapes that sets of such states take, whatever the
//! query. [`DFA`] holds the shapes against one query and reads candidates
//! byte by byte. Each of the three reports the edit distance that
//! [`edit_distance`](edit_distance::edit_distance) names.

pub mod alphabet;
pub mod builder;
pub mod concrete;
pub mod crosscheck;
pub mod dfa;
pub mod distance;
pub mod edit_distance;
pub mod layout;
pub mod levenshtein_nfa;
pub mod metric;
pub mod multistate;
pub mod parametric_dfa;
pub mod sample;
pub mod shape_count;
pub mod simulation;
pub mod text;
pub mod utf8;

pub use crosscheck::{test_levenshtein_nfa_util, test_symmetric};
pub use dfa::DFA;
pub use distance::{make_distance, Distance};
pub use levenshtein_nfa::{LevenshteinError, LevenshteinNFA, MAX_DISTANCE};
pub use multistate::{MultiState, NFAState};
pub use parametric_dfa::{ParametricDFA, ParametricState, Transition};
pub use sample::{combinations, generate_permutations, remap, TestSample};
