[package]
name = "whir_prover"
version = "0.1.0"
edition = "2021"
publish = false

[dependencies]
p3-commit = "=0.3.0"
p3-dft = "=0.3.0"
p3-field = "=0.3.0"
p3-matrix = "=0.3.0"
p3-merkle-tree = "=0.3.0"
p3-symmetric = "=0.3.0"
p3-goldilocks = "=0.3.0"
p3-keccak = "=0.3.0"
serde = { version = "1", features = ["derive"] }
