[package]
name = "elikoga_ical_rs"
version = "0.1.0"
edition = "2021"
publish = false

[dependencies]
eyre = "0.6"
memchr = "2"
