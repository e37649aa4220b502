[package]
name = "project_chooser"
version = "0.1.0"
edition = "2021"
publish = false

[dependencies]
clap = "2"
dirs = "3"
ignore = "0.4"
log = "0.4"
skim = "0.9"
stderrlog = "0.5"
