[package]
name = "colony"
version = "0.1.0"
edition = "2021"
publish = false

[dependencies]
regex = "*"
log = "*"
js-sys = "*"
web-sys = { version = "*", default-features = false, features = ["console"] }
wasm-bindgen = "*"
screeps-game-api = "*"
