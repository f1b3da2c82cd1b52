[package]
name = "chimeric_cache"
version = "0.1.0"
edition = "2021"
publish = false

[dependencies]
lru = { version = "=0.18.5", default-features = false }
serde_json = "=1.0.151"
sdl2 = { version = "=0.38.0", features = ["image", "ttf", "mixer", "unsafe_textures"] }
