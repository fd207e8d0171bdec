[package]
name = "modtile"
version = "0.1.0"
edition = "2021"
publish = false

[dependencies]
clap = "2"
euclid = "0.22"
image = "0.24"
printpdf = "0.5"
regex = "1"
serde = { version = "1", features = ["derive"] }
serde_json = "1"
