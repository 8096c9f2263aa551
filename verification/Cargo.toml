[package]
name = "preproc"
version = "0.1.0"
edition = "2021"
publish = false

[dependencies]
beef = "*"
hashbrown = "*"
simdutf8 = "*"
smallvec = "*"
smartstring = "*"
