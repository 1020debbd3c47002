[package]
name = "typst_studio"
version = "0.1.0"
edition = "2021"
publish = false

[dependencies]
base64 = "=0.23.1"
typst-as-lib = { version = "=0.16.0", features = ["typst-kit-fonts", "typst-kit-embed-fonts"] }
typst-layout = "=0.15.1"
typst-pdf = "=0.15.1"
typst-svg = "=0.15.1"
typst-syntax = "=0.15.1"
