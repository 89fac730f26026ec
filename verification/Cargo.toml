[package]
name = "coreoverlay"
version = "0.1.0"
edition = "2021"
publish = false

[dependencies]
anyhow = "1"
bincode = "1.3"
bytes = "1"
clap = { version = "4", features = ["derive"] }
colored = "2"
futures = "0.3"
hex = "0.4"
libc = "0.2"
primitive-types = "0.12"
rand = "0.8"
serde = { version = "1", features = ["derive"] }
sha1 = "0.10"
sled = "0.34"
tokio = { version = "1", features = ["macros", "net", "rt-multi-thread", "sync", "time"] }
