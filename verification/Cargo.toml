[package]
name = "treediff"
version = "0.1.0"
edition = "2021"
publish = false

[dependencies]
gix-diff = "=0.29.0"
gix-hash = "=0.11.4"
gix-object = "=0.29.2"
gix-config = "=0.20.1"
bstr = "=1.13.1"
git-attributes = "=0.3.3"
anyhow = "=1.0.104"
thiserror = "=1.0.69"
rayon = "=1.12.0"
memory-lru = "=0.1.1"
git2 = { version = "=0.21.0", default-features = false }
git-odb = "=0.41.0"
git-traverse = "=0.22.2"
git-object = "=0.26.2"
git-hash = "=0.10.3"
git-diff = "=0.26.2"
