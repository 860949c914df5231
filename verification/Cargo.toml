[package]
name = "rlibs"
version = "0.1.0"
edition = "2021"
publish = false

[dependencies]
bincode = "1"
ctrlc = "3"
gtk4 = "0.8"
nalgebra = "0.32"
rand = "0.8"
rand_distr = "0.4"
serde = { version = "1", features = ["derive"] }
