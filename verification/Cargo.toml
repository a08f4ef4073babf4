[package]
name = "tuber"
version = "0.1.0"
edition = "2021"
publish = false

[dependencies]
flate2 = "*"
roxmltree = "*"
walkdir = "*"
itertools = "*"
colored = "*"
crossterm = "*"
ratatui = "*"
byteorder = "*"
sysinfo = "*"
read-process-memory = "*"
process_list = "*"
ratelimit = "*"
serialport = { version = "*", default-features = false }
embedded-hal = "0.2"
pwm-pca9685 = "*"
mcp2221 = "*"
shared-bus = "*"
