[package]
name = "travel_mode_sim"
version = "0.1.0"
edition = "2021"
publish = false

[dependencies]
rand = "0.5"
itertools = "0.10"
hashmap_union = "*"
serde = "1"
serde_derive = "1"
serde_yaml = "0.8"
rayon = "1"
log = "0.4"
simple_logger = "1"
maplit = "1"
