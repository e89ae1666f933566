[package]
name = "gain_metrics"
version = "0.1.0"
edition = "2021"
publish = false

[dependencies]
anyhow = "*"
ebi_arithmetic = "*"
ebi_objects = "*"
