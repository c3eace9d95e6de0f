[package]
name = "dotter"
version = "0.1.0"
edition = "2021"
publish = false

[dependencies]
anyhow = "=1.0.104"
clap = "=2.34.0"
handlebars = "=3.5.5"
log = "0.4"
serde = "=1.0.229"
