[package]
name = "mapcss"
version = "0.1.0"
edition = "2021"
publish = false

[dependencies]
cssparser = "*"
regex = "*"
slotmap = "*"
utm = "*"
