[package]
name = "autocomplete_rs"
version = "0.1.0"
edition = "2021"
publish = false

[dependencies]
async-graphql = "6.0"
async-graphql-axum = "6.0"
axum = "0.6"
clap = { version = "4", features = ["derive"] }
hyper = { version = "0.14", features = ["full"] }
tokio = { version = "1", features = ["full"] }
tonic = "0.9"
