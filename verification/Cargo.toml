[package]
name = "gtrends"
version = "0.1.0"
edition = "2021"
publish = false

[dependencies]
serde_json = "1"
url = "2"
rand = "0.8"
serde = { version = "1", features = ["derive"] }
chrono = "0.4"
hyper = { version = "0.14", features = ["server", "http1", "tcp"] }
tokio = { version = "1", features = ["macros", "rt-multi-thread", "fs", "io-util", "sync"] }
reqwest = { version = "0.11", default-features = false }
plotters = { version = "0.3", default-features = false, features = ["svg_backend", "line_series", "datetime"] }
