[package]
name = "penalty_war"
version = "0.1.0"
edition = "2021"
publish = false

[dependencies]
rand = "*"
