[package]
name = "word_similarity"
version = "0.1.0"
edition = "2021"
publish = false

[dependencies]
strsim = "*"
rayon = "*"
clap = "*"
indicatif = "*"
