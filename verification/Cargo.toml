[package]
name = "dedup_pictures"
version = "0.1.0"
edition = "2021"
publish = false

[dependencies]
image = "0.25"
rayon = "1"
rpassword = "7"
serde_json = "1"
sha2 = "0.10"
tiny_http = "0.12"
walkdir = "2"
