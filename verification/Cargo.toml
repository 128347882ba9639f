[package]
name = "advent_of_codspeed_2024"
version = "0.1.0"
edition = "2021"
publish = false

[dependencies]
atoi_radix10 = "*"
