[package]
name = "goal_tictactoe"
version = "0.1.0"
edition = "2021"
publish = false

[dependencies]
bincode = "1.3"
clap = { version = "3.2", features = ["derive"] }
itertools = "0.10"
lazy_static = "1.4"
rand = "0.8"
regex = "1"
serde = { version = "1", features = ["derive"] }
strum = "0.24"
strum_macros = "0.24"
