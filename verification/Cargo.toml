[package]
name = "fixed_u128"
version = "0.1.0"
edition = "2021"
publish = false

[dependencies]
primitive-types = "*"
sp-arithmetic = "*"
parity-scale-codec = { version = "*", features = ["derive"] }
serde = "*"

[dev-dependencies]
serde_json = "*"
