[package]
name = "parking_lot_core"
version = "0.1.0"
edition = "2021"
publish = false

[dependencies]
backtrace = "=0.3.77"
cfg-if = "=1.0.5"
petgraph = "=0.6.5"
smallvec = "=2.0.0-alpha.7"
