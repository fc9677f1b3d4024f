[package]
name = "mdio"
version = "0.2.0"
edition = "2021"
publish = false

[dependencies]
embedded-hal = { version = "=0.2.7", features = ["unproven"] }
nb = "=1.1.0"
