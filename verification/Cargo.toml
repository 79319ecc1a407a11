[package]
name = "packet_parsers"
version = "0.1.0"
edition = "2021"
publish = false

[dependencies]
ccsds_primary_header = "=0.15.0"
fits-rs = "=0.3.0"
hex = "=0.4.3"
pretty-hex = "=0.4.2"
rustc-hex = "=2.1.0"
ntp-parser = "=0.6.0"
snmp-parser = "=0.11.0"
ssh-parser = "=0.5.0"
tls-parser = "=0.12.2"
