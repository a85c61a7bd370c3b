[package]
name = "kvengine"
version = "0.1.0"
edition = "2021"
publish = false

[dependencies]
commitlog = "=0.2.0"
sstable = "=0.11.1"
tempfile = "=3.27.0"
