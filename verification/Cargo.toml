[package]
name = "ndcell"
version = "0.1.0"
edition = "2021"
publish = false

[dependencies]
colorous = "1"
num = "=0.4.3"
