[package]
name = "kaleidohash"
version = "0.1.0"
edition = "2021"
publish = false

[dependencies]
openssl = "*"
sha1 = "*"
rand = "0.8"
rand_pcg = "0.3"
rand_seeder = "0.2"
rayon = "*"
serde = { version = "*", features = ["derive"] }
serde_json = "*"
clap = { version = "*", features = ["derive"] }
human_format = "*"
indicatif = "*"
