[package]
name = "levenshtein_automata"
version = "0.1.0"
edition = "2021"
publish = false

[dependencies]
levenshtein = "1.0"
