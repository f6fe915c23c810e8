[package]
name = "zkp_chaum_pedersen"
version = "0.1.0"
edition = "2021"
publish = false

[dependencies]
num-bigint = { version = "0.4", features = ["rand"] }
rand = "0.8"
tonic = "0.11"
prost = "0.12"
tokio = { version = "1", features = ["macros", "rt-multi-thread"] }
parking_lot = "0.12"
anyhow = "1"
dotenvy = "0.15"
env_logger = "0.11"
log = "0.4"

[dev-dependencies]
hex = "0.4"
