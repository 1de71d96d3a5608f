[package]
name = "zoned_time"
version = "0.1.0"
edition = "2021"
publish = false

[dependencies]
arbitrary = "1"
rkyv = "0.7"
js-sys = "0.3"
wasm-bindgen = "0.2"
