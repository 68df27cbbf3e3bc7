[package]
name = "actions_runner"
version = "0.1.0"
edition = "2021"
publish = false

[dependencies]
ignore = "0.4"
pest = "2"
pest_derive = "2"
structopt = "0.3"
tempfile = "3"
