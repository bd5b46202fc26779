[package]
name = "osm_boundaries"
version = "0.1.0"
edition = "2021"
publish = false

[dependencies]
geo = "*"
geo-types = "*"
log = "*"
osmpbfreader = "*"
