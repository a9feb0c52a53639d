[package]
name = "cejn"
version = "0.1.0"
edition = "2021"
publish = false

[dependencies]
biodivine-lib-param-bn = "=0.7.2"
biodivine-lib-bdd = "=0.6.3"
serde = { version = "=1.0.229", features = ["derive"] }
serde_json = "=1.0.151"

[dev-dependencies]
num-bigint = "=0.4.8"
