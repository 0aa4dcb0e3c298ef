[package]
name = "nx_object"
version = "0.1.0"
edition = "2021"
publish = false

[dependencies]
sha2 = "0.10"
lz4_flex = "0.11"
object = "0.36"
serde = { version = "1", features = ["derive"] }
thiserror = "2"
fs-err = "3"
