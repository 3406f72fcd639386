[package]
name = "photon_ring"
version = "2.5.0"
edition = "2021"
publish = false

[dependencies]
hashbrown = "*"
spin = "*"
core_affinity2 = "*"
libc = "0.2"
syn = { version = "2", features = ["full", "extra-traits"] }
quote = "1"
proc-macro2 = "1"
