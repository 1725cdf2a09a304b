[package]
name = "tortordle"
version = "0.1.0"
edition = "2021"
publish = false

[dependencies]
arrayvec = "*"
bitset-core = "*"
clap = { version = "4", features = ["derive"] }
colored = "*"
itertools = "*"
konst = "*"
partial_sort = "*"
rayon = "*"
terminal_size = "*"
