[package]
name = "seating"
version = "0.1.0"
edition = "2021"
publish = false

[dependencies]
rand = "0.8"
csv = "1"
ctrlc = "3"
structopt = "0.3"
