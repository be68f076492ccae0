[package]
name = "route_matcher"
version = "0.1.0"
edition = "2021"
publish = false

[dependencies]
kd-tree = "*"
typenum = "*"
priority-queue = "*"
polyline = "*"
geo-types = "*"
serde = "*"
serde_derive = "*"
serde_json = "*"
