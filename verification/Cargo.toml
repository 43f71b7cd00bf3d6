[package]
name = "phrasewatch"
version = "0.1.0"
edition = "2021"
publish = false

[dependencies]
dirs = "*"
serde = { version = "1", features = ["derive"] }
serde_json = "1"
ureq = { version = "2", features = ["json"] }
bzip2 = "*"
tar = "*"
cpal = "0.15"
sherpa-onnx = "*"
