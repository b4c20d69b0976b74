[package]
name = "rsahp"
version = "0.1.0"
edition = "2021"
publish = false

[dependencies]
percent-encoding = "=2.3.2"
bcrypt = "=0.19.3"
serde = { version = "=1.0.229", features = ["derive"] }
serde_json = { version = "=1.0.154", features = ["preserve_order"] }
nalgebra = "=0.35.0"
chrono = { version = "=0.4.45", features = ["serde"] }
clap = { version = "=4.6.7", features = ["derive"] }
directories = "=6.0.0"
jsonwebtoken = "=9.3.1"
axum = "=0.8.9"
tokio = { version = "=1.54.1", features = ["rt-multi-thread", "macros", "signal", "net"] }
sea-orm = { version = "=1.1.20", default-features = false, features = ["sqlx-sqlite", "runtime-tokio-rustls", "macros", "with-chrono"] }
sea-orm-migration = { version = "=1.1.20", default-features = false, features = ["sqlx-sqlite", "runtime-tokio-rustls"] }
async-trait = "=0.1.92"
tracing = "=0.1.44"
