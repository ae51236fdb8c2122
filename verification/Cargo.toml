[package]
name = "aegg-apple"
version = "0.1.0"
edition = "2021"
publish = false

[dependencies]
heapless = "=0.8.0"
defmt = "=1.2.0"
defmt-rtt = "=1.3.1"
panic-probe = "=1.0.0"
static_cell = "=2.1.1"
embassy-executor = { version = "=0.9.1", features = ["defmt"] }
embassy-futures = "=0.1.2"
embassy-nrf = { version = "=0.11.0", features = ["nrf52840", "time-driver-rtc1", "gpiote", "unstable-pac", "defmt"] }
embassy-sync = "=0.8.0"
embassy-time = { version = "=0.5.1", features = ["defmt"] }
embassy-usb = "=0.6.0"
embedded-hal-async = "=1.0.0"
embedded-hal-bus = { version = "=0.3.0", features = ["async"] }
