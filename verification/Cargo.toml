[package]
name = "pathdoc"
version = "0.1.0"
edition = "2021"
publish = false

[dependencies]
anstream = "=0.6.21"
anstyle = "=1.0.14"
clap = { version = "=4.6.7", features = ["derive"] }
serde_json = { version = "=1.0.154", features = ["preserve_order"] }
winreg = "=0.55.0"
