[package]
name = "signal_codification"
version = "0.1.0"
edition = "2021"
publish = false

[dependencies]
rand = "=0.8.8"
rand_distr = "=0.4.3"
hound = "=3.5.1"
clap = { version = "=4.6.7", features = ["derive"] }
cpal = "=0.15.2"
eframe = { version = "=0.21.3", default-features = false, features = ["glow", "default_fonts"] }
egui = "=0.21.0"
plotters = { version = "=0.3.6", default-features = false, features = ["bitmap_backend", "bitmap_encoder", "line_series"] }
pipewire = "0.7"
