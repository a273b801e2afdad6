[package]
name = "adb_client"
version = "0.1.0"
edition = "2021"
publish = false

[dependencies]
byteorder = "1"
parking_lot = "0.12"
