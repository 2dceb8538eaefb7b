[package]
name = "rustspeck"
version = "0.1.0"
edition = "2021"
publish = false

[dependencies]
async-channel = "2"
clap = { version = "4", features = ["derive"] }
flate2 = "1"
image = "0.25"
lofty = "0.22"
png = "0.18"
rayon = "1"
realfft = "3"
smallvec = "1"
symphonia = { version = "0.6", features = ["all"] }
