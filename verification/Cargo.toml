[package]
name = "polymath"
version = "0.1.0"
edition = "2021"
publish = false

[dependencies]
actix-web = { version = "=4.15.0", default-features = false, features = ["macros"] }
anyhow = "=1.0.104"
futures = "=0.3.34"
readability = { version = "=0.3.0", default-features = false }
redis = { version = "=1.7.1", default-features = false, features = ["tokio-comp"] }
reqwest = { version = "=0.13.5", default-features = false, features = ["json", "query"] }
serde = { version = "=1.0.229", features = ["derive"] }
serde_json = "=1.0.151"
sha2 = "=0.11.0"
tokio = { version = "=1.53.2", features = ["rt"] }
url = "=2.5.8"
