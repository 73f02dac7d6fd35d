[package]
name = "engine"
version = "0.1.0"
edition = "2021"
publish = false

[dependencies]
regex = "1"
serde_json = "=1.0.154"
wasm-bindgen = "=0.2.130"
wasm-bindgen-futures = "=0.4.80"
js-sys = "=0.3.107"
futures = "=0.3.34"
nom = "=8.0.0"
logos = "=0.15.1"
web-sys = { version = "=0.3.107", features = ["FileSystemDirectoryHandle", "FileSystemFileHandle", "FileSystemGetFileOptions", "FileSystemGetDirectoryOptions", "FileSystemRemoveOptions", "StorageManager", "WorkerGlobalScope", "WorkerNavigator", "Window", "Navigator"] }
