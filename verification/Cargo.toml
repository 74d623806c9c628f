[package]
name = "unigram_trainer"
version = "0.1.0"
edition = "2021"
publish = false

[dependencies]
esaxx-rs = "0.1"
indicatif = "0.15"
