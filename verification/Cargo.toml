[package]
name = "game_rs"
version = "0.1.0"
edition = "2021"
publish = false

[dependencies]
midly = "=0.5.3"
rayon = "=1.12.0"
num_cpus = "=1.17.0"
console = "=0.15.11"
hound = "=3.5.1"
clap = { version = "=4.6.7", features = ["derive"] }
serde_json = "=1.0.154"
indicatif = "=0.17.11"
crossbeam = "=0.8.5"
log = "=0.4.35"
env_logger = "=0.11.11"
gemm = "=0.18.2"
matrixmultiply = "=0.3.11"
eframe = { version = "*", default-features = false, features = ["default_fonts", "glow", "x11"] }
egui = "*"
rfd = { version = "*", default-features = false, features = ["xdg-portal"] }
wgpu = { version = "24", default-features = false }
