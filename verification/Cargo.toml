[package]
name = "tpx3"
version = "0.1.0"
edition = "2021"
publish = false

[dependencies]
sha1 = "*"
png = "*"
plotly = "*"
rayon = "*"
itertools = "*"
simple-uuid = "*"
