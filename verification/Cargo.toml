[package]
name = "guitar_tab"
version = "0.1.0"
edition = "2021"
publish = false

[dependencies]
nom = "7"
nom-supreme = "0.8"
itertools = "0.13"
midly = "0.5"
clap = { version = "4", features = ["derive"] }
