[package]
name = "tsalign_stats_plot"
version = "0.1.0"
edition = "2021"
publish = false

[dependencies]
clap = { version = "=4.6.7", features = ["derive"] }
lib_tsalign = { version = "=7.0.2", features = ["serde"] }
log = "=0.4.34"
noisy_float = "=0.2.1"
plotters = "=0.3.7"
serde = { version = "=1.0.229", features = ["derive"] }
simplelog = "=0.12.2"
toml = "=1.1.7"
