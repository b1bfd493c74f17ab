[package]
name = "avoidant"
version = "0.1.0"
edition = "2021"
publish = false

[dependencies]
rand = "=0.9.5"
rand_xoshiro = "=0.7.0"
serde = { version = "=1.0.229", features = ["derive"] }
serde_json = "=1.0.154"
chull = "=0.2.4"
voronator = "=0.2.1"
bluenoise = "=0.2.2"
