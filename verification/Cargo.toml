[package]
name = "formula_tree"
version = "0.1.0"
edition = "2021"
publish = false

[dependencies]
id_tree = "*"
id_tree_layout = "*"
wasm-bindgen = "0.2"
