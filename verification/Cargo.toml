[package]
name = "asa_graphs"
version = "0.1.0"
edition = "2021"
publish = false

[dependencies]
rand = "=0.8.8"
env_logger = "=0.9.3"
log = "=0.4.34"
