[package]
name = "lira_analyzer"
version = "0.1.0"
edition = "2021"
publish = false

[dependencies]
anyhow = "1"
clap = "4"
log = "0.4"
env_logger = "*"
glam = "*"
image = { version = "*", default-features = false, features = ["png"] }
imageproc = { version = "*", default-features = false }
palette = "*"
rand = "*"
docx-rs = "*"
regex = "1"
xml-rs = "*"
