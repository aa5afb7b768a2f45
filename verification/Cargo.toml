[package]
name = "waterui_visualizer"
version = "0.1.0"
edition = "2021"
publish = false

[dependencies]
kurbo = "=0.13.1"
peniko = "=0.6.1"
realfft = "=3.5.1"
waterui-core = "=0.3.2"
waterui-graphics = { version = "=0.3.0", default-features = false }
waterkit-audio = { version = "=0.1.4", default-features = false, features = ["recording"] }
async-channel = "=2.5.0"
blocking = "=1.7.0"
executor-core = "=0.7.1"
futures = "=0.3.34"
tracing = "=0.1.44"
