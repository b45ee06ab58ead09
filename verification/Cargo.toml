[package]
name = "document_loader"
version = "0.1.0"
edition = "2021"
publish = false

[dependencies]
async-stream = "0.3"
async-trait = "0.1"
futures = "0.3"
futures-util = "0.3"
