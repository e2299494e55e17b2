[package]
name = "billiards_coach"
version = "0.1.0"
edition = "2021"
publish = false

[dependencies]
eframe = { version = "=0.29.1", default-features = false, features = ["default_fonts", "glow", "x11"] }
egui = "=0.29.1"
ehttp = "=0.5.0"
glam = "=0.29.3"
image = { version = "=0.25.10", default-features = false, features = ["png", "jpeg"] }
rayon = "=1.12.0"
rfd = { version = "=0.15.4", default-features = false, features = ["xdg-portal", "async-std"] }
roots = "=0.0.8"
serde = { version = "=1.0.229", features = ["derive"] }
serde_json = "=1.0.154"
wasm-bindgen = "=0.2.130"
wasm-bindgen-futures = "=0.4.80"
web-sys = { version = "=0.3.107", features = ["CanvasRenderingContext2d", "CssStyleDeclaration", "Document", "Element", "HtmlCanvasElement", "HtmlElement", "HtmlMediaElement", "HtmlVideoElement", "ImageData", "Location", "Node", "Window"] }
