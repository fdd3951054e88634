[package]
name = "bfjit"
version = "0.1.0"
edition = "2021"
publish = false

[dependencies]
dynasm = "1"
dynasmrt = "1"
thiserror = "1"
