[package]
name = "lattica_prover_p3"
version = "0.1.0"
edition = "2021"
publish = false

[dependencies]
libc = "0.2"
p3-air = "0.6"
p3-challenger = "0.6"
p3-commit = "0.6"
p3-dft = "0.6"
p3-field = "0.6"
p3-fri = "0.6"
p3-goldilocks = "0.6"
p3-matrix = "0.6"
p3-merkle-tree = "0.6"
p3-symmetric = "0.6"
p3-uni-stark = "0.6"
postcard = { version = "1", features = ["alloc"] }
rand = "0.10"
rand_chacha = "0.10"
