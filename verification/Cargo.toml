[package]
name = "nermal"
version = "0.1.0"
edition = "2021"
publish = false

[dependencies]
regex = "1"
ignore = "0.4"
libc = "0.2"
log = "0.4"
serde = { version = "1", features = ["derive"] }
discord-rich-presence = "*"
windows-sys = { version = "0.61", features = ["Win32_Foundation", "Win32_Security", "Win32_System_Console", "Win32_System_Diagnostics_ToolHelp", "Win32_System_Registry", "Win32_System_Threading", "Win32_UI_WindowsAndMessaging"] }

[dev-dependencies]
serde_json = "1"
