[package]
name = "tron_vanity"
version = "0.1.0"
edition = "2021"
publish = false

[dependencies]
k256 = { version = "0.13", features = ["arithmetic"] }
rand_core = { version = "0.6", features = ["getrandom"] }
sha2 = "0.10"
tiny-keccak = { version = "2", features = ["keccak"] }
bs58 = "0.5"
hex = "0.4"
zeroize = "1"
uuid = { version = "1", features = ["v4"] }
chrono = { version = "0.4", default-features = false, features = ["clock", "std"] }
serde = { version = "1", features = ["derive"] }
serde_json = "1"
rusqlite = { version = "0.31", features = ["bundled"] }
tauri = { version = "2", default-features = false }
