[package]
name = "uring_cat"
version = "0.1.0"
edition = "2021"
publish = false

[dependencies]
iou = "*"
