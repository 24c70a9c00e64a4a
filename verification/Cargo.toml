[package]
name = "queueing_system"
version = "0.1.0"
edition = "2021"
publish = false

[dependencies]
rand = "0.8"
gtk = "0.9"
gio = "0.9"
glib = "0.10"
gnuplot = "0.0"
plotters = "0.3"
