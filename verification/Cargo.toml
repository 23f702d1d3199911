[package]
name = "xml_flatten"
version = "0.1.0"
edition = "2021"
publish = false

[dependencies]
quick-xml = "=0.31.0"
clap = { version = "=4.6.7", features = ["derive"] }
anyhow = "=1.0.104"
serde-jsonlines = "=0.7.0"
