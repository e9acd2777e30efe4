[package]
name = "abnormal_lp"
version = "0.1.0"
edition = "2021"
publish = false

[dependencies]
malachite = "*"
sprs = "*"
ebi_arithmetic = "*"
