[package]
name = "motiongfx"
version = "0.1.0"
edition = "2021"
publish = false

[dependencies]
hashbrown = "*"
nonempty = "*"
indexmap = "*"
field_path = "*"
typarena = "*"
