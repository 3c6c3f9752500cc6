[package]
name = "jab"
version = "0.1.0"
edition = "2021"
publish = false

[dependencies]
ring = "*"
secp256k1 = { version = "*", features = ["rand", "std"] }
ripemd = "*"
anyhow = "*"
argh = "*"
dotenv = "*"
envy = "*"
serde = { version = "*", features = ["derive"] }
serde_json = "*"
tokio = { version = "*", features = ["full"] }
tokio-cron-scheduler = "*"
tracing = "*"
tracing-subscriber = "*"
