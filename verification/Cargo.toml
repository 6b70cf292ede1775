[package]
name = "join_tests"
version = "0.1.0"
edition = "2021"
publish = false

[dependencies]
permutohedron = "0.2"
nom-sql = "*"
clap = "2"
