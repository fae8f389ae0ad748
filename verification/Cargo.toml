[package]
name = "casetrace"
version = "0.1.0"
edition = "2021"
publish = false

[dependencies]
bytes = "=1.12.1"
chrono = { version = "=0.4.45", features = ["serde"] }
deadpool-postgres = "=0.14.2"
deadpool-redis = "=0.23.1"
futures = "=0.3.34"
once_cell = "=1.21.4"
postgres-types = { version = "=0.2.14", features = ["with-chrono-0_4"] }
redis = "=1.7.1"
serde = { version = "=1.0.229", features = ["derive"] }
serde_json = "=1.0.151"
tokio = { version = "=1.53.2", features = ["macros", "rt-multi-thread"] }
tokio-postgres = { version = "=0.7.18", features = ["with-chrono-0_4"] }
warp = { version = "=0.4.3", features = ["server"] }
