[package]
name = "race_frames"
version = "0.1.0"
edition = "2021"
publish = false

[dependencies]
indexmap = { version = "*", features = ["serde"] }
ndarray = "*"
plotly = "*"
rayon = "*"
serde = { version = "*", features = ["derive"] }
serde_json = "*"
