[package]
name = "sudoku3x3"
version = "0.1.0"
edition = "2021"
publish = false

[dependencies]
druid = { version = "0.8", features = ["im"] }
ini = "1.3"
