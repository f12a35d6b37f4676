[package]
name = "random_choice"
version = "0.3.2"
edition = "2021"
publish = false

[dependencies]
rand = "0.4"
