[package]
name = "rudoku"
version = "0.1.0"
edition = "2021"

[dependencies]
notify = "4"
