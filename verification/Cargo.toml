[package]
name = "backup_retention"
version = "0.1.0"
edition = "2021"
publish = false

[dependencies]
chrono = "*"
systemstat = "*"
