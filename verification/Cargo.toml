[package]
name = "graphql_accelerator"
version = "0.1.0"
edition = "2021"
publish = false

[dependencies]
apollo-parser = "=0.8.7"
ext-php-rs = "=0.15.15"
