[package]
name = "bag2rrd"
version = "0.3.0"
edition = "2021"
publish = false

[dependencies]
anyhow = "1"
clap = { version = "4", features = ["derive"] }
flume = "0.11"
image = { version = "0.25", default-features = false, features = ["png", "jpeg"] }
indicatif = "0.17"
nalgebra = "0.33"
rosbag = "0.6"
tracing = "0.1"
tracing-subscriber = { version = "0.3", features = ["env-filter"] }
