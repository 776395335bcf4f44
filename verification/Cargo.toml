[package]
name = "grovedb"
version = "0.1.0"
edition = "2021"
publish = false

[dependencies]
blake3 = { version = "=1.8.7", default-features = false, features = ["pure"] }
byteorder = "=1.5.0"
ed = "=0.2.2"
lazy_static = "=1.5.1"
num_cpus = "=1.17.0"
rocksdb = { version = "*", default-features = false }

[dev-dependencies]
integer-encoding = "=4.1.0"
