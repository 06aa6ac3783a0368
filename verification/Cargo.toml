[package]
name = "lseq"
version = "0.1.0"
edition = "2021"
publish = false

[dependencies]
fastrand = "2"
itertools = "*"
tinyvec = { version = "1", features = ["alloc"] }
unicode-segmentation = "1"
serde = { version = "1", features = ["derive"] }
