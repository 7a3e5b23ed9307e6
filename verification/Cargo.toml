[package]
name = "crush-tether"
version = "0.1.0"
edition = "2021"
publish = false

[dependencies]
toml = { version = "*", features = ["preserve_order"] }
serde = { version = "1", features = ["derive"] }
serde_json = "1"
tree-sitter = "*"
tree-sitter-bash = "*"
rhai = { version = "*", features = ["internals"] }
mlua = { version = "*", features = ["lua54", "vendored"] }
interprocess = "*"
notify = "*"
