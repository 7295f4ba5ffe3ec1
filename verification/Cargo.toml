[package]
name = "dns_enum"
version = "0.1.0"
edition = "2021"
publish = false

[dependencies]
trust-dns-resolver = "0.23"
clap = "4"
colored = "2"
