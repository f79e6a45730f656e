[package]
name = "ringstore"
version = "0.1.0"
edition = "2021"
publish = false

[dependencies]
murmur3 = "=0.5.2"
text-colorizer = "=1.0.0"

[dev-dependencies]
bincode = "=1.3.3"
