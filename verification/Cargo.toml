[package]
name = "ipfish"
version = "0.1.0"
edition = "2021"
publish = false

[dependencies]
rand = "0.9"
rand_pcg = "0.9"
wasm-bindgen = "0.2"
js-sys = "0.3"
