[package]
name = "codesync"
version = "0.1.0"
edition = "2021"
publish = false

[dependencies]
regex = "1"
clap = { version = "4", features = ["derive"] }
codespan-reporting = "0.11"
grep = "0.3"
ignore = "0.4"
