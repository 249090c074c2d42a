[package]
name = "taskdump"
version = "0.1.0"
edition = "2021"
publish = false

[dependencies]
dashmap = "5"
rustc-hash = "1.1"
once_cell = "1"
pin-project-lite = "0.2"
futures = "0.3"
