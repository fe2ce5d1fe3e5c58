[package]
name = "clipclip"
version = "0.1.0"
edition = "2021"
publish = false

[dependencies]
cpal = { version = "*", features = ["pulseaudio"] }
libopusenc = "*"
log = "0.4"
ringbuf = "0.4"
rubato = "0.16"
thiserror = "2"
voice_activity_detector = "*"
