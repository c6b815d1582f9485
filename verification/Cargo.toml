[package]
name = "redis_proto"
version = "0.1.0"
edition = "2021"
publish = false

[dependencies]
bytes = "1"
dashmap = { version = "5", features = ["serde"] }
directories = "5"
futures = "0.3"
growable-bloom-filter = "2"
lazy_static = "1"
num-traits = "0.2"
parking_lot = "0.12"
rmp-serde = "1"
seahash = "4"
serde = { version = "1", features = ["derive"] }
slog = "2"
smallvec = "1"
structopt = "0.3"
tokio = { version = "1", features = ["full"] }
tokio-util = { version = "0.7", features = ["codec"] }
