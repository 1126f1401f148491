[package]
name = "rgrep"
version = "0.1.0"
edition = "2021"
publish = false

[dependencies]
clap = { version = "4", features = ["derive"] }
rayon = "1"
regex = "1"
thiserror = "1"
