[package]
name = "rcu_config_store"
version = "0.1.0"
edition = "2021"
publish = false

[dependencies]
arc-swap = "1"
