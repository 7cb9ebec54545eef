[package]
name = "ssd1306_driver_rs"
version = "0.1.0"
edition = "2021"
publish = false

[dependencies]
embedded-hal = "=1.0.0"
embedded-graphics = "=0.8.2"
rppal = { version = "=0.22.1", features = ["hal"] }
ctrlc = { version = "3", features = ["termination"] }
