[package]
name = "astar_grid"
version = "0.1.0"
edition = "2021"
publish = false

[dependencies]
rand = "0.8"
wasm-bindgen = "0.2"
wasm-bindgen-futures = "0.4"
fluvio-wasm-timer = "0.2"
console_error_panic_hook = "0.1"
web-sys = { version = "0.3", features = ["Document", "Element", "HtmlElement", "Window", "CssStyleDeclaration", "Node", "console"] }
