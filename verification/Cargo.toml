[package]
name = "hifisampler"
version = "0.1.0"
edition = "2021"
publish = false

[dependencies]
regex = "=1.13.1"
anyhow = "=1.0.104"
axum = "=0.8.9"
tokio = { version = "=1.54.1", features = ["rt-multi-thread", "macros", "net", "sync"] }
tracing = "=0.1.44"
tracing-subscriber = "=0.3.23"
ndarray = { version = "=0.16.1", features = ["rayon"] }
ndarray-npy = "=0.9.1"
hound = "=3.5.1"
rubato = "=0.16.2"
symphonia = { version = "=0.5.5", features = ["all"] }
biquad = "=0.5.0"
bs1770 = "=1.0.0"
fs2 = "=0.4.3"
rust-ini = "=0.21.3"
lazy_static = "=1.5.1"
once_cell = "=1.21.4"
ort = { version = "=2.0.0-rc.15", default-features = false, features = ["std"] }
oxifft = "=0.4.2"
parking_lot = "=0.12.5"
rustfft = "=6.4.1"
sprs = "=0.11.6"
