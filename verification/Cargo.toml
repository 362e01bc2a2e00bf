[package]
name = "permutations_sorting"
version = "0.1.0"
edition = "2021"
publish = false

[dependencies]
lehmer = "*"
permutohedron = "*"
rayon = "*"
text_io = "*"
