[package]
name = "threes_rs"
version = "0.1.0"
edition = "2021"
publish = false

[dependencies]
rand = "0.9"
rayon = "1"
serde = { version = "1", features = ["derive"] }
serde_json = "1"
rmp-serde = "1"
tokio = { version = "1", features = ["macros", "rt-multi-thread", "time"] }
linemux = "0.3"
macroquad = "0.4"
