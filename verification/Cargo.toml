[package]
name = "ebnf_toolkit"
version = "0.1.0"
edition = "2021"
publish = false

[dependencies]
ariadne = "*"
display_tree = "*"
