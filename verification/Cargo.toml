[package]
name = "node2object"
version = "0.1.0"
edition = "2021"
publish = false

[dependencies]
Inflector = "*"
treexml = "*"
serde_json = "*"
