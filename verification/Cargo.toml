[package]
name = "psychopath"
version = "0.1.0"
edition = "2021"
publish = false

[dependencies]
clap = "=2.34.0"
nom = "=3.2.1"
num_cpus = "=1.17.0"
crossbeam = "=0.2.12"
scoped_threadpool = "=0.1.9"
base64 = "=0.13.1"
png_encode_mini = "=0.1.2"
time = "=0.1.45"

[dev-dependencies]
halton = "=0.2.1"
