[package]
name = "endex"
version = "0.1.0"
edition = "2021"
publish = false

[dependencies]
itertools = "*"
reqwest = { version = "*", default-features = false, features = ["json"] }
tokio = { version = "*", features = ["rt", "macros"] }
dotenv = "*"
serde = { version = "*", features = ["derive"] }
serde_json = "*"
walkdir = "*"
regex = "*"
