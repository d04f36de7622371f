[package]
name = "enroute_git"
version = "0.1.0"
edition = "2021"
publish = false

[dependencies]
anyhow = "=1.0.104"
async-trait = "=0.1.92"
bytes = "=1.12.1"
flate2 = "=1.1.10"
futures = "=0.3.34"
gix-hash = "=0.28.1"
gix-pack = { version = "=0.77.0", default-features = false, features = ["sha1"] }
libdeflater = "=1.26.1"
lru = "=0.19.0"
object_store = { version = "=0.14.2", default-features = false }
rand = "=0.10.3"
rayon = "=1.12.0"
roaring = "=0.12.0"
sha1 = "=0.11.0"
thiserror = "=2.0.21"
tokio = { version = "=1.54.1", features = ["sync", "rt", "io-util", "macros", "time"] }
tracing = { version = "=0.1.44", default-features = false }
