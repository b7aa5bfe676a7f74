[package]
name = "xml_doc"
version = "0.1.0"
edition = "2021"

[dependencies]
quick-xml = "*"
