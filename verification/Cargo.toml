[package]
name = "gasp"
version = "0.1.0"
edition = "2021"
publish = false

[dependencies]
regex = "=1.13.1"
pyo3 = "=0.20.3"
log = "=0.4.35"
env_logger = "=0.10.2"
