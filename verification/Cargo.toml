[package]
name = "milim_2d"
version = "0.1.0"
edition = "2021"
publish = false

[dependencies]
uuid = { version = "1", features = ["v7"] }
crossbeam-channel = "0.5"
indexmap = "2"
sdl2 = { version = "*", features = ["image", "gfx"] }
rodio = "*"
