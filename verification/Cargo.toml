[package]
name = "purgepack"
version = "0.1.0"
edition = "2021"
publish = false

[dependencies]
clap = { version = "=4.6.7", features = ["derive"] }
indexmap = "=2.14.2"
libloading = "=0.8.9"
rand = "=0.9.5"
windows = { version = "=0.62.2", features = ["Win32_Foundation", "Win32_System_LibraryLoader"] }
