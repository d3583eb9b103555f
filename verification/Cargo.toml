[package]
name = "rustxxx"
version = "0.1.0"
edition = "2021"
publish = false

[dependencies]
crc = "3"
thiserror = "2"
anyhow = "1"
bitvec = "1"
libm = "0.2"
realfft = "3"
rustfft = "6"
rubato = "*"
audioadapter-buffers = "*"
ringbuf = "0.4"
circular-buffer = "*"
cpal = "*"
clap = { version = "4", features = ["derive"] }
plotters = "*"
minifb = "*"
colorous = "1"
