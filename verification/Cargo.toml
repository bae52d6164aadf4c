[package]
name = "sudoku_solver"
version = "0.1.0"
edition = "2021"
publish = false

[dependencies]
actix-web = { version = "*", default-features = false }
bytes = "*"
env_logger = "*"
futures = "*"
json = "*"
serde = { version = "*", features = ["derive"] }
serde_derive = "*"
serde_json = "*"
