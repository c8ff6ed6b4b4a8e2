[package]
name = "riffol"
version = "0.1.0"
edition = "2021"
publish = false

[dependencies]
crossbeam-channel = "*"
libc = "*"
mio = { version = "*", features = ["os-poll", "os-ext", "net"] }
nereon = "*"
nix = { version = "*", features = ["fs", "signal", "process", "socket", "poll"] }
rand = "*"
signal-hook = "*"
slab = "*"
syslog = "*"
