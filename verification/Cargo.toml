[package]
name = "query_diff"
version = "0.1.0"
edition = "2021"
publish = false

[dependencies]
graphql-parser = "0.4"
serde = { version = "1", features = ["derive"] }
serde_json = "1"
termcolor = "1"
