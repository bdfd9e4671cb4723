[package]
name = "hotspot"
version = "0.1.0"
edition = "2021"
publish = false

[dependencies]
chrono = "0.4"
clap = "2"
eggtimer = "*"
git2 = { version = "0.13", default-features = false }
globset = "0.4"
globwalk = "0.8"
path-absolutize = "3"
rust-code-analysis = "*"
term-table = "1"
