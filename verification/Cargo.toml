[package]
name = "differential_datalog"
version = "0.1.0"
edition = "2021"
publish = false

[dependencies]
crossbeam-channel = "*"
triomphe = "*"
