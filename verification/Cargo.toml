[package]
name = "os_sim"
version = "0.1.0"
edition = "2021"
publish = false
