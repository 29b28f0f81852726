[package]
name = "gramfuzz"
version = "0.1.0"
edition = "2021"
publish = false

[dependencies]
goblin = "=0.10.7"
rand = "=0.8.8"
rand_regex = "=0.15.1"
regex-syntax = "=0.6.29"
ptracer = "=0.3.1"
proc-maps = "=0.5.0"
memfile = "=0.3.2"
ctrlc = "*"
exitcode = "*"
serde = { version = "1", features = ["derive"] }
serde_derive = "1"
serde_json = "1"
toml = "*"
chrono = "0.4"
libc = "0.2"
