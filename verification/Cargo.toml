[package]
name = "blockade_recon"
version = "0.1.0"
edition = "2021"
publish = false

[dependencies]
oui = "=0.8.1"
eui48 = "=1.1.0"
