[package]
name = "noughts"
version = "0.1.0"
edition = "2021"
publish = false

[dependencies]
anyhow = "=1.0.104"
ego-tree = "=0.6.3"
fastrand = "=2.5.0"
graphvis_ego_tree = "=0.3.4"
md5 = "=0.8.1"
num_cpus = "=1.17.0"
raylib = "=5.5.1"
serde = { version = "=1.0.229", features = ["derive"] }
serde_json = "=1.0.154"
