[package]
name = "implicit"
version = "0.1.0"
edition = "2021"
publish = false

[dependencies]
euclid = "=0.19.9"
aabb-quadtree = "=0.2.0"
smallvec = "=0.6.14"
fnv = "=1.0.7"
itertools = "=0.7.11"
flame = "=0.2.2"
image = "=0.18.0"
regex = "1"
mime = "0.3"
mime_guess = "2"
