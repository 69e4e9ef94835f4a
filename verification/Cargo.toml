[package]
name = "lib"
version = "0.1.0"
edition = "2021"
publish = false

[dependencies]
anyhow = "1"
bigdecimal = "0.4"
chrono = { version = "0.4", features = ["serde"] }
ciborium = "0.2"
crossbeam-skiplist = "*"
cursive = "*"
k256 = { version = "0.13", features = ["ecdsa", "pem", "serde"] }
kanal = "*"
rand_core = { version = "0.6", features = ["getrandom"] }
serde = { version = "1", features = ["derive"] }
sha2 = "0.10"
text-to-ascii-art = "*"
tokio = { version = "1", features = ["rt-multi-thread", "net", "io-util", "sync", "macros", "time"] }
toml = "*"
tracing = "0.1"
tracing-appender = "0.2"
tracing-subscriber = { version = "0.3", features = ["env-filter"] }
uint = "*"
uuid = { version = "1", features = ["v4", "serde"] }
