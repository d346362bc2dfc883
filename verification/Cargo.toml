[package]
name = "dragon_solitaire"
version = "0.1.0"
edition = "2021"
publish = false

[dependencies]
rand = "*"
zero85 = "*"
getch = "*"
