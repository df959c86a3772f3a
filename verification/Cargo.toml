[package]
name = "emoji_input"
version = "0.1.0"
edition = "2021"
publish = false

[dependencies]
serde = { version = "1", features = ["derive"] }
serde_json = "1"
zbus = "5"
zvariant = "5"
tokio = { version = "1", features = ["full"] }
futures-util = "0.3"
log = "0.4"
env_logger = "0.11"
glib = "*"
gio = "*"
gtk4 = "*"
libadwaita = "*"
