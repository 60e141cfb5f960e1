[package]
name = "roxi"
version = "0.1.0"
edition = "2021"
publish = false

[dependencies]
rio_api = "=0.8.6"
rio_turtle = "=0.8.6"
spargebra = "0.2"
