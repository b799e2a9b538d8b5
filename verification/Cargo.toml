[package]
name = "speedate"
version = "0.17.0"
edition = "2021"
publish = false

[dependencies]
lexical-parse-float = { version = "1", features = ["format"] }
