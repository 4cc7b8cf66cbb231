[package]
name = "gdsfill"
version = "0.1.0"
edition = "2021"
publish = false

[dependencies]
anyhow = "1"
clap = { version = "4", features = ["derive"] }
flate2 = "1"
gds21 = "*"
geo = "*"
gzp = { version = "*", default-features = false, features = ["deflate_rust"] }
i_overlay = "*"
rayon = "1"
serde = { version = "1", features = ["derive"] }
serde_yml = "*"
