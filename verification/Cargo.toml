[package]
name = "grid_pathfinding"
version = "0.1.0"
edition = "2021"
publish = false

[dependencies]
bresenham = "*"
ndarray = "*"
numpy = "*"
pyo3 = "*"
