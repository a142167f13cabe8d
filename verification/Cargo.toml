[package]
name = "distributed_prover"
version = "0.1.0"
edition = "2021"
publish = false

[dependencies]
ark-ff = "=0.4.2"
ark-serialize = "=0.4.2"
ark-std = "=0.4.0"
ark-bls12-381 = "=0.4.0"
ark-relations = "=0.4.0"
ark-r1cs-std = "=0.4.0"
clap = { version = "4.5", features = ["derive"] }
rand = "0.8"
rayon = "1"
sha2 = "0.10"
