[package]
name = "watch_folder"
version = "0.1.0"
edition = "2021"
publish = false

[dependencies]
anyhow = "1"
chrono = "0.4"
dotenvy = "0.15"
hex = "0.4"
lettre = { version = "0.11", default-features = false, features = ["builder", "hostname", "smtp-transport", "pool", "rustls-tls"] }
notify = "8"
notify-debouncer-full = "0.7"
sha2 = "0.10"
