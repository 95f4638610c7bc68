[package]
name = "td_router"
version = "0.1.0"
edition = "2021"
publish = false

[dependencies]
nav-types = "=0.5.2"
postgres = "0.19"
time = "=0.1.45"
