[package]
name = "sufec_chat_core"
version = "0.1.0"
edition = "2021"
publish = false

[dependencies]
sodiumoxide = "0.2.7"
termion = "4.0.6"
