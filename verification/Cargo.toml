[package]
name = "square1_solver"
version = "0.1.0"
edition = "2021"
publish = false

[dependencies]
bytemuck = "1"
clap = { version = "4", features = ["derive"] }
image = "*"
imageproc = "*"
indicatif = "*"
inputbot = "*"
rayon = "1"
serde = { version = "1", features = ["derive"] }
serialport = "*"
toml = "*"
ws2818-rgb-led-spi-driver = "*"
