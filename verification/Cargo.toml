[package]
name = "rust_kvm_os"
version = "0.1.0"
edition = "2021"
publish = false

[dependencies]
kvm-bindings = "*"
kvm-ioctls = "*"
libc = "0.2"
libm = "0.2"
object = "*"
