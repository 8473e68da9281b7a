[package]
name = "sail_tracker"
version = "0.1.0"
edition = "2021"
publish = false

[dependencies]
embedded-sdmmc = "=0.10.0"
embassy-time = { version = "=0.5.1", features = ["std"] }
embassy-executor = { version = "=0.9.1", features = ["arch-std", "executor-thread"] }
embassy-sync = "=0.8.0"
embassy-nrf = { version = "=0.11.0", features = ["nrf52833", "gpiote"] }
embassy-embedded-hal = "=0.6.0"
embedded-hal-bus = "=0.3.0"
lsm303agr = { version = "=1.1.0", features = ["async"] }
libm = "=0.2.16"
num-traits = { version = "=0.2.19", default-features = false, features = ["libm"] }
defmt = "=1.2.0"
cortex-m = "=0.7.10"
static_cell = "=2.1.1"
