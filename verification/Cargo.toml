[package]
name = "opman"
version = "0.1.0"
edition = "2021"
publish = false

[dependencies]
alpm = "2"
clap = { version = "4", features = ["derive"] }
fern = { version = "0.6", features = ["colored"] }
chrono = "0.4"
log = "0.4"
