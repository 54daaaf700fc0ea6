[package]
name = "napparent_tabular"
version = "0.6.0"
edition = "2021"
publish = false

[dependencies]
arrow = { version = "=58.4.1", default-features = false }
ndarray = "=0.17.2"
ndarrow = "=0.0.4"
indicatif = "=0.18.6"
ctrlc = "=3.5.2"
pyo3 = "*"
arrow-pyarrow = "=58.4.1"
