[package]
name = "clog_journal"
version = "0.1.0"
edition = "2021"
publish = false

[dependencies]
aes-gcm = "=0.10.3"
chrono = "=0.4.45"
crossterm = "=0.28.1"
directories = "=6.0.0"
ratatui = "=0.29.0"
scrypt = { version = "0.11", default-features = false }
tempfile = "=3.27.0"
