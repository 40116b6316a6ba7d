[package]
name = "py_dependency_mapper"
version = "0.1.0"
edition = "2021"
publish = false

[dependencies]
hex = "=0.4.3"
sha2 = "=0.10.9"
ruff_python_ast = "=0.0.5"
ruff_python_parser = "=0.0.5"
# Held back for ruff_python_ast 0.0.5: later 0.10 patches are built against
# another compact_str than the one its names are made of.
get-size2 = "=0.10.1"
walkdir = "=2.5.0"
pyo3 = "=0.30.1"
