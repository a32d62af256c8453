[package]
name = "team_builder"
version = "0.1.0"
edition = "2021"
publish = false

[dependencies]
csv = "1"
simple_excel_writer = "*"
