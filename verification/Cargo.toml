[package]
name = "geese"
version = "0.3.9"
edition = "2021"
publish = false

[dependencies]
bitvec = "=1.1.1"
fxhash = "=0.2.1"
smallvec = "=1.16.4"
topological-sort = "=0.2.2"
vecdeque-stableix = "=1.1.1"
wasm_sync = "=0.1.2"
wasm_thread = "=0.3.3"
