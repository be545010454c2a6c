[package]
name = "relay_board_five_chn"
version = "0.1.0"
edition = "2021"
publish = false

[dependencies]
embassy-executor = "=0.10.0"
embassy-net = { version = "=0.9.1", features = ["tcp", "dhcpv4", "medium-ethernet", "proto-ipv4"] }
embassy-net-wiznet = "=0.3.0"
embassy-sync = "=0.8.0"
embassy-time = "=0.5.1"
embedded-hal-bus = { version = "=0.3.0", features = ["async"] }
embedded-io-async = "=0.7.0"
esp-alloc = "=0.10.0"
esp-backtrace = { version = "=0.19.0", features = ["esp32", "panic-handler", "println"] }
esp-bootloader-esp-idf = { version = "=0.5.0", features = ["esp32"] }
esp-hal = { version = "=1.1.2", features = ["esp32", "unstable"] }
esp-println = { version = "=0.17.0", features = ["esp32", "log-04"] }
esp-rtos = { version = "=0.3.0", features = ["esp32", "embassy"] }
log = "=0.4.35"
static_cell = "=2.1.1"
