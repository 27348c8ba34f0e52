[package]
name = "synchronous_autocomplete"
version = "0.1.0"
edition = "2021"
publish = false

[dependencies]
slugify = "*"
levenshtein = "*"
float-ord = "*"
