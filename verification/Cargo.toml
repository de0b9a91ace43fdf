[package]
name = "di_csv2xml"
version = "0.1.0"
edition = "2021"
publish = false

[dependencies]
csv = "1"
anyhow = "1"
atty = "0.2"
flate2 = "1"
humantime = "2"
indicatif = "*"
structopt = "0.3"

[dev-dependencies]
quick-xml = "*"
