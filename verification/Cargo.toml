[package]
name = "mpsc_priority_bench"
version = "0.1.0"
edition = "2021"
publish = false

[dependencies]
crossbeam = "0.8"
crossbeam-skiplist = "0.1"
