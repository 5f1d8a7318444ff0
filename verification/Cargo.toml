[package]
name = "zkicao"
version = "0.1.0"
edition = "2021"
publish = false

[dependencies]
serde_json = "1"
circom-witnesscalc = "0.2"
sha2 = "0.10"
