[package]
name = "rtow"
version = "0.1.0"
edition = "2021"
publish = false

[dependencies]
rand = "0.8"
num = "0.4"
rayon = "1"
lazy_static = "1"
simple-stopwatch = "*"
memory-stats = "*"
tracing = "0.1"
tracing-subscriber = "0.3"
tracing-tracy = "*"
