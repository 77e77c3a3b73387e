[package]
name = "surfaceflinger_hook"
version = "0.1.0"
edition = "2021"
publish = false

[dependencies]
goblin = "=0.7.1"
log = "=0.4.35"
sliding_features = "=2.5.4"
unix-named-pipe = "=0.2.0"
memmap2 = "=0.7.1"
thiserror = "=1.0.69"
android_logger = "=0.13.3"
dobby-api = "=0.1.9"
dobby-sys = "=0.1.0"
libc = "=0.2.191"
derive_more = "=0.99.20"
