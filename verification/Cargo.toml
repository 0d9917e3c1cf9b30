[package]
name = "com_tool"
version = "0.1.0"
edition = "2021"
publish = false

[dependencies]
bytes = "1"
serialport = { version = "4", default-features = false }
structopt = "0.3"
console = "0.15"
