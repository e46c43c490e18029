[package]
name = "nimbus_ecs"
version = "0.1.0"
edition = "2021"
publish = false

[dependencies]
hashbrown = "*"
itoa = "1"
serde = { version = "1", features = ["derive"] }
serde_json = "1"
bincode = "1"
rayon = "1"
crossbeam-channel = "0.5"
num_cpus = "1"
