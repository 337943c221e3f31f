[package]
name = "ip_network_table"
version = "0.1.0"
edition = "2021"
publish = false

[dependencies]
ip_network = "*"
serde = "*"
