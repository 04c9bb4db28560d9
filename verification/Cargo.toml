[package]
name = "velo"
version = "0.1.0"
edition = "2021"
publish = false

[dependencies]
percent-encoding = "2"
syn = { version = "2", features = ["full", "extra-traits"] }
quote = "1"
proc-macro2 = "1"
wasm-bindgen = "0.2"
wasm-bindgen-futures = "0.4"
js-sys = "0.3"
web-sys = { version = "0.3", features = ["Window", "Document", "Element", "Node", "NodeList", "Text", "DocumentFragment", "Event", "EventTarget", "HtmlElement", "HtmlInputElement", "History", "Location", "Response", "Headers", "PopStateEvent", "DomTokenList"] }
serde = { version = "1", features = ["derive"] }
serde_json = "1"
inventory = "0.3"
anyhow = "1"
clap = { version = "4", features = ["derive"] }
console_error_panic_hook = "0.1"
