[package]
name = "rip_route"
version = "0.1.0"
edition = "2021"
publish = false

[dependencies]
cidr = "0.2"
uuid = "1"
rkyv = { version = "0.7", features = ["validation"] }
async-trait = "0.1"
tokio = { version = "1", features = ["rt", "sync", "time", "macros"] }
tokio-util = "0.7"
