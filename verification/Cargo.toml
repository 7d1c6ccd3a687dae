[package]
name = "leptos_signals"
version = "0.1.0"
edition = "2021"
publish = false

[dependencies]
leptos_reactive = "0.0"
