[package]
name = "urlencoded"
version = "0.1.0"
edition = "2021"
publish = false

[dependencies]
url = "=1.7.2"
iron = "=0.6.1"
plugin = "=0.2.6"
typemap = "=0.3.3"
