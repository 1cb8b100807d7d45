[package]
name = "mapfm"
version = "0.1.0"
edition = "2021"
publish = false

[dependencies]
petgraph = "0.6"
num = "0.4"
num-traits = "0.2"
impl_ops = "0.1"
serde = { version = "1", features = ["derive"] }
thiserror = "1"
reqwest = { version = "0.11", default-features = false, features = ["blocking", "json"] }
