[package]
name = "obj_overlap_cleaner"
version = "0.1.0"
edition = "2021"
publish = false

[dependencies]
three-d-asset = "*"
tobj = "*"
image = { version = "*", default-features = false, features = ["png", "jpeg"] }
clap = { version = "4", features = ["derive"] }
