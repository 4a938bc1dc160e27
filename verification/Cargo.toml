[package]
name = "rbtw"
version = "0.1.0"
edition = "2021"
publish = false

[dependencies]
clap = { version = "*", features = ["derive"] }
color-eyre = "*"
efibootnext = "*"
efivar = "*"
inquire = "*"
nix = { version = "*", features = ["ioctl"] }
sudo = "*"
uuid = "*"
