[package]
name = "sticker_packer"
version = "0.1.0"
edition = "2021"
publish = false

[dependencies]
base64 = "*"
lopdf = "*"
svg2pdf = "*"
usvg = "*"
geo = "*"
geo-types = "*"
i_overlay = "*"
earcutr = "*"
rayon = "*"
clap = { version = "*", features = ["derive"] }
wasm-bindgen = "*"
