[package]
name = "cliff"
version = "0.1.0"
edition = "2021"
publish = false

[dependencies]
bytes = "1"
clap = "2"
dotenv = "0.15"
tokio = { version = "1", features = ["rt-multi-thread", "net", "sync", "io-util", "macros", "time"] }
tokio-postgres = "0.7"
tokio-util = { version = "0.7", features = ["codec"] }

[dev-dependencies]
rmpv = "1"
