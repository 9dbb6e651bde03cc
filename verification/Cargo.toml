[package]
name = "spellcoder"
version = "0.1.0"
edition = "2021"
publish = false

[dependencies]
rand = "=0.9.5"
worldgen = "=0.5.3"
interpolation = "=0.3.0"
glob = "=0.3.4"
jzon = "=0.12.5"
raylib = "5.5.1"
