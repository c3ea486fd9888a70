[package]
name = "zipcrack"
version = "0.1.0"
edition = "2021"
publish = false

[dependencies]
arrayvec = "*"
anyhow = "*"
crossterm = "*"
ctrlc = "*"
serde_json = "*"
structopt = "*"
