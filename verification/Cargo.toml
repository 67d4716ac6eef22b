[package]
name = "grep_preview"
version = "0.1.0"
edition = "2021"
publish = false
