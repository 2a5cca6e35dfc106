[package]
name = "generic_octree"
version = "0.1.0"
edition = "2021"
publish = false

[dependencies]
hashbrown = "=0.17.1"
rayon = "=1.12.0"
serde = { version = "=1.0.229", features = ["derive"] }
bincode = "=1.3.3"
flate2 = "=1.1.10"
petgraph = "=0.8.3"
color = "=0.3.3"
dot_vox = "=5.2.0"
