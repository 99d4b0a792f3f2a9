[package]
name = "lobby_graph"
version = "0.1.0"
edition = "2021"
publish = false

[dependencies]
anyhow = "=1.0.104"
celesteloader = "=0.5.2"
clap = { version = "=4.6.7", features = ["derive"] }
euclid = "=0.22.14"
parley = "=0.2.0"
png = "=0.18.1"
serde = "=1.0.229"
serde_json = "=1.0.151"
swash = "=0.1.19"
tiny-skia = "=0.12.0"
