[package]
name = "deku_bits"
version = "0.1.0"
edition = "2021"
publish = false

[dependencies]
bitvec = "=1.1.1"
acid_io = { version = "=0.1.0", features = ["alloc"] }
no_std_io = { version = "=0.6.0", features = ["alloc"] }
