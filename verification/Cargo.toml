[package]
name = "rom_config"
version = "0.1.0"
edition = "2021"
publish = false

[dependencies]
anyhow = "*"
clap = { version = "*", features = ["derive"] }
clap-num = "*"
ds-rom = "*"
log = "*"
serde_yml = "*"
unarm = "*"
