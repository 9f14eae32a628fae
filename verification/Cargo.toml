[package]
name = "rutile"
version = "0.1.0"
edition = "2021"
publish = false

[dependencies]
gtk4 = "*"
libadwaita = { version = "*", features = ["v1_5"] }
vte4 = "*"
libc = "0.2"
serde = { version = "1", features = ["derive"] }
toml = "*"
