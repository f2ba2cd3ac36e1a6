[package]
name = "dice_sim"
version = "0.1.0"
edition = "2021"

[dependencies]
rand = "0.8"
num = "0.4"
js-sys = "0.3"
wasm-bindgen = "0.2"
