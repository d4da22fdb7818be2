[package]
name = "license_report"
version = "0.1.0"
edition = "2021"
publish = false

[dependencies]
ansi_term = "=0.12.1"
csv = "=1.4.0"
getopts = "=0.2.24"
