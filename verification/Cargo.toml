[package]
name = "saimiris_gateway"
version = "0.1.0"
edition = "2021"
publish = false

[dependencies]
sha2 = "*"
rand = "*"
uuid = { version = "*", features = ["v4"] }
hex = "*"
ipnet = "*"
serde = { version = "*", features = ["derive"] }
serde_json = "*"
chrono = { version = "*", features = ["serde"] }
anyhow = "*"
thiserror = "*"
axum = "*"
tokio = { version = "*", features = ["rt-multi-thread", "macros", "net", "time", "sync"] }
clap = { version = "*", features = ["derive"] }
clap-verbosity-flag = "*"
tracing = "*"
tracing-subscriber = "*"
once_cell = "*"
jsonwebtoken = "*"
reqwest = { version = "*", default-features = false, features = ["json", "rustls-tls"] }
sqlx = { version = "*", default-features = false, features = ["postgres", "runtime-tokio", "tls-rustls", "chrono", "uuid"] }
rdkafka = "*"
rustls = "*"
rustls-pemfile = "*"
tokio-rustls = "*"
