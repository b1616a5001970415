[package]
name = "html_table_csv_converter"
version = "0.1.0"
edition = "2021"
publish = false

[dependencies]
clap = "*"
ureq = "*"
