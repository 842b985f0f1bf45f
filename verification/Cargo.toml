[package]
name = "b_encontrar_todas_as_nfes_do_cte"
version = "0.1.0"
edition = "2021"
publish = false

[dependencies]
rayon = "*"
regex = "*"
thiserror = "*"
walkdir = "*"
