[package]
name = "dodrio_templating"
version = "0.2.0"
edition = "2021"
publish = false

[dependencies]
wasm-bindgen = "=0.2.130"
wasm-bindgen-futures = "0.4"
web-sys = { version = "=0.3.107", features = ["console", "EventTarget", "Location", "Response", "Window"] }
