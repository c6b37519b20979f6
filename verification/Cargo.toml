[package]
name = "starlark_lexer"
version = "0.1.0"
edition = "2021"
publish = false

[dependencies]
anyhow = "1"
codemap = "0.1"
gazebo = "0.7"
logos = "0.11"
thiserror = "1"
