[package]
name = "audio_analyzer"
version = "0.1.0"
edition = "2021"

[dependencies]
clap = { version = "4", features = ["derive"] }
rustfft = "6"
symphonia = { version = "0.5", features = ["mp3"] }
