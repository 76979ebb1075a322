[package]
name = "dua"
version = "0.1.0"
edition = "2021"
publish = false

[dependencies]
atty = "0.2"
byte-unit = "4"
filesize = "0.2"
jwalk = "0.8"
num_cpus = "1"
owo-colors = "3"
