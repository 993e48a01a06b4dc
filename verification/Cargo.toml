[package]
name = "zmq_kv_store"
version = "0.1.0"
edition = "2021"
publish = false

[dependencies]
zmq = "0.10"
