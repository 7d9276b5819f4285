[package]
name = "simple_xml_builder"
version = "0.1.0"
edition = "2021"

[dependencies]
indexmap = "*"
