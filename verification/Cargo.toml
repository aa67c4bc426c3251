[package]
name = "togatog_ai"
version = "0.1.0"
edition = "2021"

[dependencies]
fnv = "1"
min-max-heap = "1"
clap = "2"
csv = "1"
