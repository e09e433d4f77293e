[package]
name = "gpui-component"
version = "0.1.0"
edition = "2021"
publish = false

[dependencies]
rust-i18n = "3"
smol = "2"
smallvec = "1"
