[package]
name = "mm_sim"
version = "0.1.0"
edition = "2021"
publish = false

[dependencies]
anyhow = "1"
bevy = { version = "0.17", default-features = false, features = ["std", "bevy_log"] }
chrono = "0.4"
crossterm = "0.29"
csv = "1"
ctrlc = "3"
extra_collections = "*"
rand = "0.9"
rand_distr = "0.5"
rgb = "0.8"
skillratings = "*"
textplots = "0.8"
thiserror = "2"
tracing = "0.1"
tracing-appender = "0.2"
tracing-subscriber = { version = "0.3", features = ["env-filter"] }
