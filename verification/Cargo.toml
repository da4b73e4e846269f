[package]
name = "sway_workspace_extras"
version = "0.1.0"
edition = "2021"
publish = false

[dependencies]
swayipc = "*"
clap = { version = "*", features = ["derive"] }
thiserror = "*"
