[package]
name = "raytracer"
version = "0.1.0"
edition = "2021"
publish = false

[dependencies]
rand = "=0.8.8"
image = { version = "=0.24.9", default-features = false, features = ["jpeg", "png"] }
tobj = "=3.2.5"
nom_stl = "=0.2.2"
console = "=0.16.6"
indicatif = "=0.16.2"
