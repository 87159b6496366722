[package]
name = "systemd_cpuset"
version = "0.1.0"
edition = "2021"
publish = false

[dependencies]
oci-spec = "*"
