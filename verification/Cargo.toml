[package]
name = "pinp"
version = "0.1.0"
edition = "2021"
publish = false

[dependencies]
rustc-hash = "=2.1.3"
ryu = "=1.0.23"
inkwell = { version = "0.9", features = ["llvm21-1-no-llvm-linking"] }
llvm-sys = { version = "211", features = ["no-llvm-linking", "disable-alltargets-init"] }
