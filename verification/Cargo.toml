[package]
name = "mcmc_decrypt"
version = "0.1.0"
edition = "2021"
publish = false

[dependencies]
rand = "0.6"
rand_pcg = "0.1"
serde = { version = "1", features = ["derive"] }
serde_derive = "1"
serde_json = "1"
clap = "2"
