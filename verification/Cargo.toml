[package]
name = "radiosity"
version = "0.1.0"
edition = "2021"
publish = false

[dependencies]
anyhow = "=1.0.104"
ash = "=0.38.0"
clap = { version = "=4.6.7", features = ["derive"] }
indexmap = "=2.14.2"
log = "=0.4.35"
spirv-std = "=0.11.0"
tracing = "=0.1.44"
tracing-subscriber = { version = "=0.3.23", features = ["env-filter"] }
zerocopy = { version = "=0.8.63", features = ["derive"] }
