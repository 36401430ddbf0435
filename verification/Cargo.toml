[package]
name = "snowball"
version = "0.1.0"
edition = "2021"
publish = false

[dependencies]
hex = "=0.4.3"
rand = "=0.8.8"
sawtooth-sdk = "=0.5.2"
clap = "=4.6.7"
log = "=0.4.34"
log4rs = "=1.4.0"
