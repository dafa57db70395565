[package]
name = "fastwarc_grpc"
version = "0.1.0"
edition = "2021"
publish = false

[dependencies]
cap-std = "*"
fastwarc = "*"
http-body = "*"
http-body-util = "*"
hyper-util = { version = "*", features = ["tokio"] }
libc = "*"
prost = "*"
tempfile = "*"
tokio = { version = "*", features = ["full"] }
tokio-stream = { version = "*", features = ["net"] }
tonic = "*"
tonic-health = "*"
tonic-reflection = "*"
tower = { version = "*", features = ["util"] }
tower-service = "*"
