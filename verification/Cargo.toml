[package]
name = "cfgcomment"
version = "0.1.0"
edition = "2021"
publish = false

[dependencies]
anyhow = "1"
git-filter-server = "*"
ignore = "0.4"
structopt = "0.3"
tempfile = "3"
tracing-subscriber = "0.3"
