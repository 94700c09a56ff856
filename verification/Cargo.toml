[package]
name = "astro_data_vault"
version = "0.1.0"
edition = "2021"
publish = false

[dependencies]
bytes = { version = "1", features = ["serde"] }
chrono = { version = "0.4", features = ["serde"] }
serde = { version = "1", features = ["derive"] }
clap = { version = "4", features = ["derive"] }
sqlx = { version = "0.8", default-features = false, features = ["sqlite", "runtime-tokio", "chrono", "macros"] }
