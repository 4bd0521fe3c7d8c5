[package]
name = "leader_schedule"
version = "0.1.0"
edition = "2021"
publish = false

[dependencies]
borsh = "0.10"
rand = "0.7"
rand_chacha = "0.2"
solana-sdk = "1.16"
