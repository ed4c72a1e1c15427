[package]
name = "localbench_core"
version = "0.1.0"
edition = "2021"
publish = false

[dependencies]
flate2 = "=1.1.10"
image = { version = "=0.25.10", default-features = false, features = ["png", "jpeg", "gif", "bmp", "webp"] }
jpeg-encoder = "=0.6.1"
js-sys = "0.3"
lopdf = { version = "=0.46.0", default-features = false }
ocrs = "=0.12.2"
rten = { version = "=0.24.0", default-features = false, features = ["rten_format"] }
wasm-bindgen = "0.2"
zip = { version = "=2.6.1", default-features = false, features = ["deflate"] }
zune-jpeg = "=0.5.15"
