[package]
name = "xml_attr_codec"
version = "0.1.0"
edition = "2021"
publish = false

[dependencies]
anyhow = "1"
quick-xml = { version = "*", features = ["serialize"] }
serde = { version = "1", features = ["derive"] }
serde_repr = "0.1"
