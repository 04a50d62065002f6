[package]
name = "git_pr"
version = "0.1.0"
edition = "2021"
publish = false

[dependencies]
clap = { version = "=4.6.7", features = ["derive", "env"] }
colored = "=3.1.1"
git2 = "=0.21.0"
inquire = { version = "=0.9.4", features = ["editor"] }
serde = { version = "=1.0.229", features = ["derive"] }
serde_json = "=1.0.151"
serde_yaml = "=0.9.34"
thiserror = "=2.0.21"
