[package]
name = "taffle"
version = "0.1.0"
edition = "2021"
publish = false

[dependencies]
anyhow = "=1.0.104"
clap = { version = "=4.6.7", features = ["derive"] }
cxx-qt = "*"
cxx-qt-lib = { version = "*", features = ["qt_qml", "qt_gui"] }
sha1 = "=0.11.0"
thiserror = "=2.0.21"
