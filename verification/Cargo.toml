[package]
name = "plonk_circuit"
version = "0.1.0"
edition = "2021"
publish = false

[dependencies]
ark-ff = "0.3"
ark-ec = "0.3"
ark-poly = "0.3"
ark-std = "0.3"
ark-serialize = { version = "0.3", features = ["derive"] }
ark-bls12-381 = "0.3"
ark-ed-on-bls12-381 = "0.3"
