[package]
name = "burn_engine"
version = "0.1.0"
edition = "2021"
publish = false

[dependencies]
burn-ir = { version = "=0.22.1", default-features = false }
cubecl = { version = "=0.11.3", default-features = false }
cubek = { version = "=0.3.1", default-features = false, features = ["attention", "quantization"] }
hashbrown = "=0.17.1"
log = "=0.4.35"
