[package]
name = "bevy_instanced_text"
version = "0.1.0"
edition = "2021"
publish = false

[dependencies]
ropey = { version = "=1.6.1", default-features = false }
serde = { version = "=1.0.229", features = ["derive"] }
bitflags = "=2.13.2"
arboard = "=3.7.0"
