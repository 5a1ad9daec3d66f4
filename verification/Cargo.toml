[package]
name = "ray_tracer_challenge"
version = "0.1.0"
edition = "2021"
publish = false

[dependencies]
approx = "0.5"
derivative = "2"
dyn-clone = "1"
rand = "0.8"
