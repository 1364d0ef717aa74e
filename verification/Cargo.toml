[package]
name = "freecell_solver"
version = "0.1.0"
edition = "2021"
publish = false

[dependencies]
rand = "0.9"
dotenv = "*"
glob = "*"
image = { version = "0.25", default-features = false, features = ["png"] }
opencv = "*"
rdev = "*"
scrap = "*"
