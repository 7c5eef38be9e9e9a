[package]
name = "spielesammlung"
version = "0.1.0"
edition = "2021"
publish = false

[dependencies]
rand = "0.9"
egui = "0.29.1"
eframe = { version = "0.29.1", default-features = false, features = ["default_fonts", "glow", "x11"] }
egui_extras = { version = "0.29.1", default-features = false, features = ["image"] }
image = { version = "0.25", default-features = false, features = ["png"] }
serde = { version = "1", features = ["derive"] }
serde_json = "1"
tungstenite = "0.24"
tokio = { version = "1", features = ["rt-multi-thread", "macros", "net", "sync", "io-util"] }
tokio-tungstenite = "0.24"
futures-util = "0.3"
