[package]
name = "josh_filters"
version = "0.1.0"
edition = "2021"
publish = false

[dependencies]
git2 = { version = "0.13", default-features = false }
glob = "0.3"
tracing = "0.1"
