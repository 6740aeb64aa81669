[package]
name = "rbx_xml"
version = "0.6.0"
edition = "2021"
publish = false

[dependencies]
base64 = "=0.10.1"
failure = "=0.1.8"
rbx_dom_weak = "=1.10.1"
xml-rs = "=0.8.29"
