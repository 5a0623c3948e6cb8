[package]
name = "agentlink"
version = "0.1.0"
edition = "2021"
publish = false

[dependencies]
md5 = "=0.8.1"
sys-info = "=0.9.1"
rand = "=0.10.3"
mio = { version = "=1.2.4", features = ["net", "os-poll"] }
