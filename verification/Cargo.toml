[package]
name = "caseless"
version = "0.1.0"
edition = "2021"
publish = false

[dependencies]
unicode-normalization = "=0.1.25"
icu_casemap = "=2.3.0"
