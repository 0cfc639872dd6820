[package]
name = "data_summarizer"
version = "0.1.0"
edition = "2021"
publish = false

[dependencies]
pyo3 = "0.21"
serde_json = { version = "1", features = ["preserve_order"] }
