[package]
name = "btree_store"
version = "0.1.0"
edition = "2021"
publish = false

[dependencies]
memoffset = "*"
scan_fmt = "*"
