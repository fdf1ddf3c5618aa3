[package]
name = "diaric"
version = "0.1.0"
edition = "2021"
publish = false

[dependencies]
pathfinding = "4"
ordered-float = "5"
nalgebra = "0.34"
rand = "0.10"
rand_chacha = "0.10"
realfft = "3"
kodama = "0.3"
hound = "3"
thiserror = "2"
serde = { version = "1", features = ["derive"] }
ort = { version = "=2.0.0-rc.10", default-features = false, features = ["load-dynamic"] }
