[package]
name = "footprints"
version = "0.1.0"
edition = "2021"
publish = false

[dependencies]
anyhow = "1"
earcutr = "0.4"
geo = "0.23"
geojson = "0.24"
grid = "0.9"
rand = "0.8"
random_color = "0.6"
