[package]
name = "read_copy_update"
version = "0.1.0"
edition = "2021"
publish = false

[dependencies]
thread_local = "1"

[dev-dependencies]
loom = "0.7"
