[package]
name = "krrr"
version = "0.1.0"
edition = "2021"
publish = false

[dependencies]
colored = "=3.1.1"
dotenvy = "=0.15.7"
local-ip-address = "=0.6.13"
tokio = { version = "=1.53.2", features = ["macros", "rt-multi-thread"] }
warp = { version = "=0.4.3", features = ["server"] }
