[package]
name = "cres"
version = "0.6.0"
edition = "2021"
publish = false

[dependencies]
anyhow = "=1.0.104"
argfile = "=1.0.0"
audec = "=0.1.0"
avery = { version = "=0.7.1", features = ["stripper-xml"] }
bzip2 = "*"
clap = { version = "=4.6.7", features = ["derive"] }
derive_builder = "=0.20.2"
env_logger = "=0.11.11"
flate2 = "*"
hepmc2 = "=0.7.0"
itertools = "=0.10.5"
jetty = "=0.4.1"
log = "=0.4.34"
lz4 = "*"
memchr = "=2.8.3"
noisy_float = "=0.2.1"
num-traits = "=0.2.19"
particle_id = "=0.5.1"
quick-xml = { version = "=0.30.0", features = ["serialize"] }
rand = "=0.8.8"
rand_xoshiro = "=0.6.0"
rayon = "=1.12.0"
regex = "=1.13.1"
serde = { version = "=1.0.229", features = ["derive"] }
stripper-xml = "=0.5.0"
strum = { version = "=0.25.0", features = ["derive"] }
thiserror = "=1.0.69"
typed-builder = "=0.23.2"
zstd = "*"
