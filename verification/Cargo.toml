[package]
name = "typhoon"
version = "0.1.0"
edition = "2021"
publish = false

[dependencies]
serde = "*"
serde_json = "*"
wasm-bindgen = "*"
wasm-bindgen-futures = "*"
web-sys = { version = "*", features = ["Window", "Document", "Element", "Text", "Node", "HtmlElement", "HtmlInputElement", "MouseEvent", "InputEvent", "KeyboardEvent", "HashChangeEvent", "Storage", "Location", "Event", "EventTarget"] }
console_error_panic_hook = "*"
