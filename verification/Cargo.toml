[package]
name = "eye_control"
version = "0.1.0"
edition = "2021"
publish = false

[dependencies]
enigo = "*"
opencv = { version = "*", features = ["highgui", "imgproc", "videoio"], default-features = false }
reqwest = { version = "0.12", features = ["blocking"] }
