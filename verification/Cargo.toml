[package]
name = "quick_xml_to_json"
version = "0.3.0"
edition = "2021"
publish = false

[dependencies]
quick-xml = "0.38"
serde = "1"
serde_json = "1"
thiserror = "2"
