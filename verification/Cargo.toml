[package]
name = "xtr_warp"
version = "0.1.0"
edition = "2021"
publish = false

[dependencies]
anyhow = "1"
libc = "0.2"
memmap2 = "*"
pyo3 = { version = "*", features = ["abi3-py310"] }
pyo3-tch = "*"
rayon = "1"
serde = { version = "1", features = ["derive"] }
serde_json = "1"
tch = { version = "*", features = ["doc-only"] }
winapi = { version = "0.3", features = ["errhandlingapi", "libloaderapi"] }
