[package]
name = "rkn"
version = "0.1.0"
edition = "2021"
publish = false

[dependencies]
anyhow = "1"
chumsky = "0.10"
clap = { version = "4", features = ["derive"] }
directories = "*"
mimalloc = "0.1"
rustyline = "*"
