[package]
name = "quiz_extract"
version = "0.1.0"
edition = "2021"
publish = false

[dependencies]
anyhow = "*"
minidom = "*"
reqwest = { version = "*", default-features = false, features = ["blocking"] }
serde = { version = "*", features = ["derive"] }
tinytemplate = "*"
