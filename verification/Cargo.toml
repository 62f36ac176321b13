[package]
name = "lpp"
version = "0.1.0"
edition = "2021"
publish = false

[dependencies]
parse_int = "=0.9.0"
utf8_slice = "=1.0.0"
rustc_apfloat = "*"
