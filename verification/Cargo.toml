[package]
name = "crulz"
version = "0.1.0"
edition = "2021"
publish = false

[dependencies]
ansi_term = "0.12"
anyhow = "1"
atoi = "*"
bincode = "1"
bstr = "1"
codespan = "0.11"
codespan-reporting = "0.11"
flate2 = "1"
gumdrop = "0.8"
readfilez = "*"
serde = { version = "1", features = ["derive"] }
thiserror = "1"
