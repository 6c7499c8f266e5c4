[package]
name = "exchange"
version = "0.1.0"
edition = "2021"
publish = false

[dependencies]
bus = "2"
dotenv = "0.15"
rand = "*"
rand_distr = "*"
rmp-serde = "1"
serde = { version = "1", features = ["derive"] }
tungstenite = "*"
