[package]
name = "exchange"
version = "0.1.0"
edition = "2021"
publish = false

[dependencies]
serde = { version = "1", features = ["derive"] }
serde_json = "1"
bcrypt = "0.15"
rand = "0.8"
uuid = { version = "1", features = ["v4"] }
chrono = "0.4"
tokio = { version = "1", features = ["full"] }
axum = "0.8"
axum-extra = { version = "0.10", features = ["cookie"] }
tower-http = { version = "0.6", features = ["cors"] }
redis = "0.27"
warp = "0.3"
once_cell = "1"
log = "0.4"
env_logger = "0.11"
dotenv = "0.15"
dotenvy = "0.15"
time = "0.3"
validator = { version = "0.18", features = ["derive"] }
futures-util = "0.3"
diesel = { version = "2", features = ["postgres", "r2d2", "uuid", "chrono"] }
