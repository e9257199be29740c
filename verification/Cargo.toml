[package]
name = "benchbencher"
version = "0.1.0"
edition = "2021"
publish = false

[dependencies]
anyhow = "1"
console = "*"
humantime = "2"
indicatif = "*"
structopt = "0.3"
