[package]
name = "ipset_lookup"
version = "0.1.0"
edition = "2021"
publish = false

[dependencies]
rayon = "1"
glob = "0.3"
clap = "4"
anyhow = "1"
