[package]
name = "ic_vetkd_cdk"
version = "0.1.0"
edition = "2021"
publish = false

[dependencies]
candid = "0.10"
futures = "0.3"
ic-cdk = "0.17"
ic-stable-structures = "0.6"
serde = { version = "1", features = ["derive"] }
serde_bytes = "0.11"
serde_with = "3"

[dev-dependencies]
rand = "0.8"
rand_chacha = "0.3"
