[package]
name = "process_icon"
version = "0.1.0"
edition = "2021"
publish = false

[dependencies]
quick-xml = "=0.37.5"
iced = { version = "=0.14.0", default-features = false, features = ["image", "svg", "x11"] }
icon = "=0.2.0"
dirs = "=7.0.0"
objc2 = "=0.6.5"
objc2-app-kit = "=0.3.2"
objc2-foundation = "=0.3.2"
block2 = "=0.6.2"
windows = { version = "=0.62.2", features = ["Win32_Graphics_Gdi", "Win32_UI_WindowsAndMessaging"] }
