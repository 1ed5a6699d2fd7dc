[package]
name = "world_upgrader"
version = "0.1.0"
edition = "2021"
publish = false

[dependencies]
flate2 = "*"
java_string = "*"
valence_nbt = { version = "*", features = ["binary", "java_string"] }
valence_anvil = "*"
rayon = "*"
clap = { version = "*", features = ["derive"] }
tracing = "*"
tracing-subscriber = { version = "*", features = ["env-filter"] }
tracing-tree = "*"
time = "*"
