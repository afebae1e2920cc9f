[package]
name = "dicom_viewer_rs"
version = "0.1.0"
edition = "2021"
publish = false

[dependencies]
console_error_panic_hook = "*"
dicom-core = "*"
dicom-dictionary-std = "*"
dicom-object = "*"
dicom-pixeldata = { version = "*", features = ["ndarray"] }
js-sys = "*"
serde = { version = "*", features = ["derive"] }
serde-wasm-bindgen = "*"
thiserror = "*"
tracing = "*"
tracing-wasm = "*"
wasm-bindgen = "*"
web-sys = { version = "*", features = ["Window", "Document", "Element", "HtmlCanvasElement", "CanvasRenderingContext2d", "ImageData", "console"] }
web-time = "*"
