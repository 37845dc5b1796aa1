[package]
name = "nia"
version = "0.1.0"
edition = "2021"
publish = false

[dependencies]
atom_syndication = "*"
rss = "*"
linkify = "*"
url = "*"
chrono = "*"
sled = "*"
reqwest = { version = "*", default-features = false, features = ["blocking"] }
crossterm = "*"
ratatui = "*"
