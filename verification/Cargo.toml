[package]
name = "rsmalloc"
version = "0.1.0"
edition = "2021"
publish = false

[dependencies]
rustix = { version = "1", features = ["mm", "rand", "system", "thread", "fs", "param"] }
syscalls = "*"
rayon = "1"
arbitrary = { version = "1", features = ["derive"] }
syn = { version = "2", features = ["full"] }
quote = "1"
proc-macro2 = "1"
