[package]
name = "wordle_solver"
version = "0.1.0"
edition = "2021"

[dependencies]
rand = "0.8"
serde_json = "1"
