[package]
name = "silica_chunks"
version = "0.1.0"
edition = "2021"
