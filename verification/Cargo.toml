[package]
name = "scripture_os"
version = "0.1.0"
edition = "2021"
publish = false

[dependencies]
smallvec = "1"
blake3 = { version = "1", features = ["pure"] }
regex = "1"
axum = "0.8"
tokio = { version = "1", features = ["macros", "rt-multi-thread", "net"] }
sqlx = { version = "0.8", default-features = false, features = ["postgres", "runtime-tokio", "macros", "uuid", "json"] }
serde = { version = "1", features = ["derive"] }
serde_json = "1"
csv = "1"
dotenvy = "0.15"
anyhow = "1"
async-trait = "0.1"
uuid = { version = "1", features = ["v4", "serde"] }
parking_lot = "0.12"
thiserror = "2"
