[package]
name = "torii_graphql"
version = "0.1.0"
edition = "2021"
publish = false

[dependencies]
chrono = "*"
sqlx = { version = "*", default-features = false, features = ["sqlite", "runtime-tokio", "macros"] }
tokio = { version = "*", default-features = false, features = ["sync", "rt"] }
tokio-stream = { version = "*", default-features = false, features = ["sync"] }
async-graphql = "*"
async-recursion = "*"
