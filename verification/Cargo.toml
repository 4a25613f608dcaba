[package]
name = "sdmmc_log"
version = "0.1.0"
edition = "2021"
publish = false

[dependencies]
embedded-hal = "=0.2.7"
embedded-sdmmc = "=0.4.0"
esp-idf-hal = "=0.40.1"
esp-idf-svc = "=0.45.0"
esp-idf-sys = "=0.32.1"
log = "=0.4.34"
