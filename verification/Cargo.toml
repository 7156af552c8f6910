[package]
name = "entorhinal"
version = "0.1.0"
edition = "2021"
publish = false

[dependencies]
async-trait = "*"
blake3 = "1"
cortexkit-paths = "*"
cortexkit-store = "*"
cortexkit-store-types = "*"
rusqlite = "*"
serde = { version = "1", features = ["derive"] }
serde_json = "1"
subc-client-rs = "*"
subc-protocol = "*"
tokio = { version = "1", features = ["macros", "rt-multi-thread"] }
