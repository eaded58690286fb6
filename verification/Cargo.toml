[package]
name = "rust_paddle_ocr"
version = "0.1.0"
edition = "2021"
publish = false

[dependencies]
image = { version = "=0.25.10", default-features = false, features = ["png", "jpeg"] }
imageproc = { version = "=0.25.1", default-features = false }
rayon = "=1.12.0"
crossbeam-channel = "=0.5.17"
once_cell = "=1.21.4"
ndarray = "=0.17.2"
mnn = "=0.2.0"
clap = { version = "=4.6.7", features = ["derive"] }
env_logger = "=0.11.11"
log = "=0.4.34"
serde = { version = "=1.0.229", features = ["derive"] }
serde_json = "=1.0.154"
thiserror = "=2.0.21"
libc = "=0.2.191"
