[package]
name = "pointset"
version = "0.1.0"
edition = "2021"
publish = false
