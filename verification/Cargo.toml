[package]
name = "hark"
version = "0.1.0"
edition = "2021"
publish = false

[dependencies]
html-escape = "*"
local-ip-address = "*"
chrono = { version = "*", features = ["serde"] }
uuid = { version = "*", features = ["v4"] }
serde = { version = "*", features = ["derive"] }
serde_json = "*"
thiserror = "*"
rusqlite = { version = "*", features = ["bundled", "chrono"] }
parking_lot = "*"
dirs = "*"
zip = { version = "*", default-features = false, features = ["deflate"] }
axum = "*"
tokio = { version = "*", features = ["rt-multi-thread", "net", "sync", "macros"] }
tower = { version = "*", features = ["util"] }
tower-http = { version = "*", features = ["fs"] }
hound = "*"
log = "*"
crossbeam-channel = "*"
reqwest = { version = "*", default-features = false, features = ["blocking", "json"] }

[dev-dependencies]
tempfile = "*"
