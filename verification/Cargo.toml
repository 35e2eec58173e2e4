[package]
name = "ledger_stage"
version = "0.1.0"
edition = "2021"
publish = false

[dependencies]
pallas = { version = "=1.4.0", features = ["hardano"] }
gasket = { version = "=0.11.1", features = ["derive"] }
async-trait = "=0.1.92"
clap = { version = "=4.6.7", features = ["derive"] }
miette = "=7.6.0"
tracing = "=0.1.44"
