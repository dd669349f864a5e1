[package]
name = "egglog_experimental"
version = "0.1.0"
edition = "2021"
publish = false

[dependencies]
# Not called here: egglog-reports draws it in, and the derive macros of this
# line switch on the syntax features that the engine's own macros build with.
clap = { version = "=4.5.61", default-features = false }
egglog = { version = "=2.0.0", default-features = false }
egglog-reports = "=2.0.0"
lazy_static = "=1.5.1"
log = "=0.4.35"
