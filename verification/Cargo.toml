[package]
name = "kernel_density"
version = "0.1.0"
edition = "2021"
publish = false

[dependencies]
ordered-float = "*"

[dev-dependencies]
quickcheck = { version = "0.6", default-features = false }
rand = "0.4"
