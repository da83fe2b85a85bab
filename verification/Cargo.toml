[package]
name = "rimsort-core"
version = "0.1.0"
edition = "2021"
publish = false

[dependencies]
uuid = { version = "1", features = ["v5"] }
encoding_rs = "0.8"
natord = "1"
petgraph = "*"
serde = { version = "1", features = ["derive"] }
serde_json = "1"
flate2 = "1"
dirs = "*"
regex = "1"
rayon = "1"
trash = "*"
notify-debouncer-mini = "*"
sysinfo = "*"
zip = "*"
tar = "*"
rusqlite = { version = "*", features = ["bundled"] }
reqwest = { version = "0.12", default-features = false, features = ["blocking", "rustls-tls"] }
tracing = "0.1"
