[package]
name = "beyond_qr"
version = "0.1.0"
edition = "2021"
publish = false

[dependencies]
reed-solomon = "0.2"
qrcode = { version = "0.14", default-features = false }
pyo3 = "0.22"
