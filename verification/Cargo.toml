[package]
name = "incparse"
version = "0.1.0"
edition = "2021"
publish = false

[dependencies]
boxcar = "0.2"
dashmap = "6"
indexmap = "2"
parking_lot = "0.12"
