[package]
name = "regalloc_moves"
version = "0.1.0"
edition = "2021"

[dependencies]
log = "0.4"
smallvec = "1"
