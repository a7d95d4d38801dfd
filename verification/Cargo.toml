[package]
name = "qproj"
version = "0.1.0"
edition = "2021"
publish = false

[dependencies]
indexmap = "2"
bevy_platform = "*"
bevy_math = "*"
smallvec = "1"
itertools = "*"
thiserror = "2"
rand = "0.9"
serde = { version = "1", features = ["derive"] }
