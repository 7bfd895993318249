[package]
name = "onebrc"
version = "0.1.0"
edition = "2021"
publish = false

[dependencies]
fastrand = "=2.5.0"
gxhash = "=2.3.1"
memchr = "=2.8.3"
memmap2 = "=0.9.12"
rayon = "=1.12.0"
