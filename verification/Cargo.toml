[package]
name = "reducers"
version = "0.1.0"
edition = "2021"
publish = false

[dependencies]
cfg-if = "=1.0.5"
differential-dataflow = "=0.13.0"
ndarray = { version = "=0.15.6", features = ["serde"] }
ordered-float = { version = "=4.6.0", features = ["serde"] }
serde = { version = "=1.0.229", features = ["derive"] }
