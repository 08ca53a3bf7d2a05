[package]
name = "rustengine"
version = "0.1.0"
edition = "2021"
publish = false

[dependencies]
protobuf = "3"
glam = "*"
mlua = { version = "0.9", features = ["luajit", "vendored"] }
tokio = { version = "1", features = ["net", "sync", "rt", "rt-multi-thread", "time", "macros"] }
tracing = "0.1"
