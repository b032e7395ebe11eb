[package]
name = "taquin-rust"
version = "0.1.0"
edition = "2021"
publish = false

[dependencies]
rand = "0.7"
wasm-bindgen = "0.2"
js-sys = "0.3"
