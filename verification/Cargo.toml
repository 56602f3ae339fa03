[package]
name = "gridless_pathfinding"
version = "0.1.0"
edition = "2021"
publish = false

[dependencies]
rustc-hash = "1.1"
sha1 = "0.10"
wasm-bindgen = "0.2"
js-sys = "0.3"
console_error_panic_hook = "0.1"
