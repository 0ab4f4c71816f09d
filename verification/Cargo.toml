[package]
name = "pollard_p_minus_one"
version = "0.1.0"
edition = "2021"
publish = false

[dependencies]
primal = "*"
ramp = "*"
