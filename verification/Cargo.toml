[package]
name = "tinyapi"
version = "0.1.1"
edition = "2021"
publish = false

[dependencies]
heapless = "=0.8.0"
hash32 = "=0.3.1"
embassy-net = { version = "=0.7.1", features = ["tcp", "proto-ipv4", "medium-ethernet"] }
embassy-time = { version = "=0.5.1", features = ["std"] }
embassy-sync = "=0.7.2"
embassy-futures = "=0.1.2"
embassy-executor = { version = "=0.7.0", features = ["arch-std", "executor-thread"] }
critical-section = { version = "=1.2.0", features = ["std"] }
