[package]
name = "cells"
version = "0.1.0"
edition = "2021"
publish = false

[dependencies]
kas = { version = "=0.16.1", default-features = false, features = ["minimal", "view"] }
easy-cast = ">=0.5.0, <0.5.5"
chrono = "=0.4.45"
env_logger = "=0.11.11"
