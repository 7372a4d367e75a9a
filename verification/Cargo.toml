[package]
name = "leptos_hotkeys"
version = "0.1.0"
edition = "2021"
publish = false

[dependencies]
leptos = "=0.6.15"
leptos_meta = "=0.6.15"
leptos_router = "=0.6.15"
wasm-bindgen = "=0.2.129"
web-sys = { version = "=0.3.106", features = ["Document", "Event", "EventTarget", "KeyboardEvent", "Location", "Window"] }
