[package]
name = "timely_window"
version = "0.1.0"
edition = "2021"
publish = false

[dependencies]
timely = "0.12"
