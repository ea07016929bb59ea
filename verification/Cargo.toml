[package]
name = "rs_wordle_solver"
version = "0.1.0"
edition = "2021"
publish = false

[dependencies]
rand = "0.8"
rayon = "1"
radix_trie = "0.2"
serde = { version = "1", features = ["derive"] }
clap = { version = "3", features = ["derive"] }
