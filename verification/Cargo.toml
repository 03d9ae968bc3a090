[package]
name = "auth_core"
version = "0.1.0"
edition = "2021"
publish = false

[dependencies]
jsonwebtoken = { version = "=11.1.0", features = ["rust_crypto"] }
bcrypt = "=0.19.3"
serde = { version = "*", features = ["derive"] }
axum = "=0.8.9"
tokio = { version = "*", features = ["full"] }
tower-http = { version = "*", features = ["cors"] }
sea-orm = { version = "*", default-features = false, features = ["macros", "runtime-tokio-rustls", "sqlx-sqlite"] }
dotenv = "*"
log = "*"
async-trait = "*"
