[package]
name = "chrono_photo"
version = "0.1.0"
edition = "2021"
publish = false

[dependencies]
flate2 = "1"
glob = "0.3"
rand = "0.8"
image = "0.23"
structopt = "0.3"
rayon = "1"
