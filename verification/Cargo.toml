[package]
name = "mandelbrot"
version = "0.1.0"
edition = "2021"
publish = false

[dependencies]
bmp = "0.5"
env_logger = "0.4"
log = "0.3"
threadpool = "1"
time = "0.1"
