[package]
name = "po_aggregator"
version = "0.1.0"
edition = "2021"
publish = false

[dependencies]
calamine = "0.27"
csv = "=1.4.0"
dirs = "=5.0.1"
indexmap = "=2.14.2"
rust_xlsxwriter = "=0.80.0"
serde = { version = "=1.0.229", features = ["derive"] }
