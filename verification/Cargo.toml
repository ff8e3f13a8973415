[package]
name = "minitrace_jaeger"
version = "0.1.0"
edition = "2021"
publish = false

[dependencies]
minitrace = "=0.3.1"
rand = "=0.8.8"

[dev-dependencies]
thrift_codec = "=0.3.2"
