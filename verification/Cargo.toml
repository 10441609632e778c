[package]
name = "underpass_turbo"
version = "0.1.0"
edition = "2021"
publish = false

[dependencies]
regex = "1"
clap = "2"
threadpool = "1"
osm_pbf_iter = "*"
