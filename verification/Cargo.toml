[package]
name = "pal_os_event"
version = "0.1.0"
edition = "2021"
publish = false

[dependencies]
naive-timer = "*"
