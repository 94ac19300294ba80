[package]
name = "mesh_alloc"
version = "0.1.0"
edition = "2021"
publish = false

[dependencies]
rand = "0.9"
rustix = { version = "1", features = ["mm"] }
thiserror = "2"
hashbrown = { version = "0.15", features = ["allocator-api2"] }
ahash = "0.8"
allocator-api2 = "0.2"
