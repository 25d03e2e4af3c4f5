[package]
name = "fakefont"
version = "0.1.0"
edition = "2021"
publish = false

[dependencies]
babelfont = "=0.2.5"
fontmerge = "=0.2.2"
google-fonts-glyphsets = "=1.1.3"
indexmap = "=2.14.2"
flate2 = "=1.1.10"
rand = "=0.10.3"
serde_json = "=1.0.154"
skrifa = "=0.49.0"
