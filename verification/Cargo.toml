[package]
name = "codebreakers"
version = "0.0.1"
edition = "2021"
publish = false

[dependencies]
clap = "2"
