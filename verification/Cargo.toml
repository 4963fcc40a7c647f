[package]
name = "photo_map"
version = "0.1.0"
edition = "2021"
publish = false

[dependencies]
chrono = "=0.4.45"
num = "=0.4.3"
cogset = "=0.2.0"
rand = "=0.8.8"
rusqlite = { version = "=0.41.1", features = ["bundled"] }
getopts = "=0.2.24"
env_logger = "=0.11.11"
log = "=0.4.35"
flate2 = "=1.1.10"
iron = "=0.6.1"
router = "=0.6.0"
hyper = "=0.10.16"
nickel = "=0.11.0"
rustc-serialize = "=0.3.25"
num_cpus = "=1.17.0"
simple_parallel = "=0.2.1"
rexiv2 = "=0.10.0"
