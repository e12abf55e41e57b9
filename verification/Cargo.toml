[package]
name = "koe"
version = "0.1.0"
edition = "2021"
publish = false

[dependencies]
speakrs = "=0.5.0"
whisper-rs = "=0.15.1"
