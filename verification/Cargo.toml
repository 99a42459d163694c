[package]
name = "ccfolia_tweaks"
version = "0.1.0"
edition = "2021"
publish = false

[dependencies]
rfd = "0.15"
thirtyfour = "0.36"
tokio = { version = "1", features = ["rt-multi-thread", "time"] }

[dev-dependencies]
winnow = "0.7"
