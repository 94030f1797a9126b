[package]
name = "victor"
version = "0.1.0"
edition = "2021"
publish = false

[dependencies]
cssparser = "0.29"
html5ever = "0.26"
markup5ever_rcdom = "0.2"
