[package]
name = "lace_util"
version = "0.1.0"
edition = "2021"
publish = false

[dependencies]
fdt = "=0.1.5"
clap = { version = "=4.6.7", features = ["derive"] }
serde = { version = "=1.0.229", features = ["derive"] }
serde_json = "=1.0.154"
regex = "=1.13.1"
zip = { version = "=9.2.2", default-features = false, features = ["deflate"] }
libc = "=0.2.191"
toml = "*"
