[package]
name = "rki_nowcast"
version = "0.1.0"
edition = "2021"
publish = false

[dependencies]
prettytable-rs = "*"
rasciigraph = "*"
reqwest = { version = "*", default-features = false, features = ["blocking"] }
