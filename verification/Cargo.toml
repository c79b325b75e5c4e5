[package]
name = "workqueue"
version = "0.1.0"
edition = "2021"
publish = false

[dependencies]
proc-macro2 = "1.0.27"
quote = "1.0.9"
syn = "1.0.74"
