[package]
name = "geph_nat"
version = "0.1.0"
edition = "2021"
publish = false

[dependencies]
bytes = "*"
fastrand = "*"
parking_lot = "*"
pnet_packet = "*"
