[package]
name = "fleischwolf"
version = "0.1.0"
edition = "2021"
publish = false

[dependencies]
async-trait = "0.1"
roxmltree = "*"
serde_json = "1"
sqlx = { version = "0.8", default-features = false, features = ["runtime-tokio", "sqlite"] }
zip = { version = "*", default-features = false, features = ["deflate"] }
