[package]
name = "ios_backup_core"
version = "0.1.0"
edition = "2021"
publish = false

[dependencies]
sha1 = "=0.10.7"
infer = "=0.19.0"
indexmap = "=2.14.2"
byte-unit = "5"
anyhow = "=1.0.104"
clap = { version = "=4.6.7", features = ["derive"] }
