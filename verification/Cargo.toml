[package]
name = "lnmp_py_core"
version = "0.1.0"
edition = "2021"
publish = false

[dependencies]
lnmp = "*"
lnmp-core = "=0.5.13"
http = "=1.5.0"
pyo3 = { version = "=0.22.6", features = ["extension-module", "abi3-py38"] }
