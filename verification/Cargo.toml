[package]
name = "rust_lib_aggs"
version = "0.1.0"
edition = "2021"
publish = false

[dependencies]
arrayvec = { version = "*", features = ["serde"] }
crossbeam = "*"
rust_decimal = "*"
serde = { version = "*", features = ["derive"] }
serde_json = "*"
serde_repr = "*"
thiserror = "*"
tinyvec = { version = "*", features = ["serde", "alloc"] }
tungstenite = "*"
url = "*"
