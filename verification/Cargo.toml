[package]
name = "amatl"
version = "0.3.1"
edition = "2021"
publish = false

[dependencies]
clap = { version = "4", features = ["derive"] }
dicom-toolkit-jpeg2000 = "*"
flate2 = { version = "1", default-features = false, features = ["zlib-rs"] }
image = { version = "0.25", default-features = false, features = ["jpeg"] }
lopdf = { version = "0.44", default-features = false }
mozjpeg = "0.10"
rayon = "1"
zopfli = "0.8"
