[package]
name = "svg_report"
version = "0.1.0"
edition = "2021"
publish = false

[dependencies]
base64 = "*"
lopdf = "*"
svg2pdf = "*"
xmltree = { version = "*", features = ["attribute-order"] }
walkdir = "*"
rayon = "*"
