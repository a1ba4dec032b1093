[package]
name = "single_page_html"
version = "0.1.0"
edition = "2021"
publish = false

[dependencies]
sha2 = "=0.10.9"
base64 = "=0.22.1"
html5ever = "=0.27.0"
markup5ever_rcdom = "=0.3.0"
clap = { version = "4", features = ["derive", "env"] }
fs-err = "2"
