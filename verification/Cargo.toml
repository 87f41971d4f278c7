[package]
name = "fast_quantiles"
version = "0.1.0"
edition = "2021"

[dependencies]
arrayvec = "0.5"
ordered-float = "1.0"
rand = "0.7"
rand_pcg = "0.2"
