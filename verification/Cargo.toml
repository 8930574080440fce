[package]
name = "metaguard"
version = "0.1.0"
edition = "2021"
publish = false

[dependencies]
chrono = "=0.4.45"
ctrlc = "=3.5.2"
sysinfo = "=0.39.6"
