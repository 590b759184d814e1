[package]
name = "gsym"
version = "0.1.0"
edition = "2021"
publish = false

[dependencies]
hashbrown = "*"
smallvec = "1"
hex = "*"
crc32fast = "*"
lzma-rs = "*"
object = "*"
gimli = "*"
memmap2 = "*"
thiserror = "*"
zerocopy = "*"
debuginfod = "*"
