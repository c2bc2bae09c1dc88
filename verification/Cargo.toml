[package]
name = "irc_chat"
version = "0.1.0"
edition = "2021"
publish = false

[dependencies]
bcrypt = "*"
serde = "*"
serde_json = "*"
log = "*"
env_logger = "*"
gtk = "0.18"
glib = "0.18"
