[package]
name = "fragtk"
version = "1.1.0"
edition = "2021"
publish = false

[dependencies]
clap = "=4.6.7"
flate2 = { version = "=1.0.35", default-features = false, features = ["rust_backend"] }
gzp = { version = "=0.11.3", default-features = false, features = ["deflate_rust"] }
log = "=0.4.34"
pretty_env_logger = "=0.5.0"
