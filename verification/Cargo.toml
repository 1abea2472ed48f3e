[package]
name = "event_parse"
version = "0.1.0"
edition = "2021"
publish = false

[dependencies]
drop_bomb = "*"
ungrammar = "*"
