[package]
name = "opengrid"
version = "0.1.0"
edition = "2021"
publish = false

[dependencies]
rand = "0.8"
rand_pcg = "0.3"
wasm-bindgen = "0.2"
js-sys = "0.3"
console_error_panic_hook = "0.1"
web-sys = { version = "0.3", features = ["console", "Element", "HtmlElement", "HtmlCanvasElement", "CanvasRenderingContext2d"] }
