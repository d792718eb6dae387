[package]
name = "abs_screens"
version = "0.1.0"
edition = "2021"
publish = false

[dependencies]
gtk4 = { version = "=0.9.7", features = ["v4_8"] }
libadwaita = { version = "=0.7.2", features = ["v1_2"] }
