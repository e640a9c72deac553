[package]
name = "eeprom_fs"
version = "0.1.0"
edition = "2021"
publish = false

[dependencies]
heapless = "0.8"
ufmt = "0.2"
nb = "1"
