[package]
name = "serenade"
version = "0.1.0"
edition = "2021"
publish = false

[dependencies]
dary_heap = "=0.3.9"
hashbrown = "=0.14.5"
rand = "=0.8.8"
itertools = "=0.10.5"
rayon = "=1.12.0"
csv = "=1.4.0"
chrono = "=0.4.45"
tdigest = "=0.2.3"
serde = { version = "=1.0.229", features = ["derive"] }
avro-rs = "=0.13.0"
bincode = "=1.3.3"
md5 = "=0.7.0"
uuid = "=0.8.2"
justconfig = "=1.0.1"
sys-info = "=0.9.1"
indicatif = "0.17"
tpe = "0.2"
anyhow = "=1.0.104"
actix-web = "=3.3.3"
actix-web-prom = "=0.5.1"
rocksdb = "=0.25.0"
