[package]
name = "shortest_path"
version = "0.1.0"
edition = "2021"
publish = false

[dependencies]
chrono = "0.4"
dotenv = "0.15"
geoutils = "0.5"
lambda_http = "0.13"
serde = { version = "1", features = ["derive"] }
serde_json = "1"
sqlx = { version = "0.8", default-features = false, features = ["postgres", "runtime-tokio", "derive", "json", "chrono"] }
tokio = { version = "1", features = ["macros", "rt-multi-thread", "time"] }
