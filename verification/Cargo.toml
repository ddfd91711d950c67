[package]
name = "puzzle_explorer"
version = "0.1.0"
edition = "2021"
publish = false

[dependencies]
blake3 = { version = "1", features = ["pure"] }
serde = { version = "1", features = ["derive"] }
serde_yaml_ng = "*"
glam = { version = "*", features = ["serde"] }
log = "0.4"
wasm-bindgen = "*"
js-sys = "*"
web-sys = { version = "*", features = ["Worker", "WorkerOptions", "MessageEvent", "Window", "Document", "Blob", "BlobPropertyBag", "Url", "HtmlAnchorElement", "HtmlInputElement", "FileReader", "ProgressEvent", "Event", "EventTarget", "FileList", "File", "Element", "HtmlElement", "CssStyleDeclaration", "Node"] }
serde-wasm-bindgen = "*"
console_error_panic_hook = "*"
