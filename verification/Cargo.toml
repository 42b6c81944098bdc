[package]
name = "logproof"
version = "0.1.0"
edition = "2021"
publish = false

[dependencies]
crypto-bigint = "*"
seal_fhe = "*"
sunscreen_math = "*"
