[package]
name = "tile_overlap"
version = "0.1.0"
edition = "2021"
publish = false

[dependencies]
axum = "*"
gdal = "*"
proj = "*"
regex = "1"
reqwest = "*"
serde = { version = "1", features = ["derive"] }
tokio = { version = "1", features = ["macros", "rt-multi-thread", "net"] }
