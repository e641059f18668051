[package]
name = "bigdecimal_ethers_ext"
version = "0.1.0"
edition = "2021"
publish = false

[dependencies]
bigdecimal = "0.3"
ethers-core = { version = "2", default-features = false }
