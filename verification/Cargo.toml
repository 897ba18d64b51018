[package]
name = "minesweeper"
version = "0.1.0"
edition = "2021"
publish = false

[dependencies]
rand = "0.7"
gtk = "0.9"
glib = "0.10"
gdk-pixbuf = "0.9"
