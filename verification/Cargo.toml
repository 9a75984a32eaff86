[package]
name = "metric_table"
version = "0.1.0"
edition = "2021"
publish = false

[dependencies]
metrics = "0.20"
metrics-util = "0.14"
