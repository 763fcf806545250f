[package]
name = "fhe_graph"
version = "0.1.0"
edition = "2021"
publish = false

[dependencies]
bincode = "=1.3.3"
itertools = "0.13"
mpi = "=0.8.2"
petgraph = "=0.6.5"
rand = "0.8"
rand_chacha = "0.3"
rayon = "1"
serde = { version = "=1.0.229", features = ["derive"] }
smallvec = { version = "=1.16.4", features = ["serde"] }
