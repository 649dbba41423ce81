[package]
name = "purple_rain"
version = "0.1.0"
edition = "2021"
publish = false

[dependencies]
rand = "0.8"
rand_distr = "0.4"
log = "0.4"
instant = "0.1"
pixels = "0.10"
winit = "0.27"
winit_input_helper = "0.13"
tokio = { version = "1", features = ["rt-multi-thread", "time"] }
