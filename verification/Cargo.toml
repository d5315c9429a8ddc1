[package]
name = "play"
version = "0.1.0"
edition = "2021"
publish = false

[dependencies]
anyhow = "1"
block2 = "0.6"
crossbeam-channel = "0.5"
dispatch2 = { version = "0.3", default-features = false, features = ["std", "alloc", "block2", "objc2", "libc"] }
env_logger = "0.11"
ffmpeg-next = "7"
ffmpeg-sys-next = "7"
log = "0.4"
objc2 = "0.6"
objc2-app-kit = { version = "0.3", default-features = false, features = ["std", "block2", "bitflags", "libc", "objc2-core-foundation", "NSApplication", "NSEvent", "NSGraphics", "NSMenu", "NSMenuItem", "NSResponder", "NSRunningApplication", "NSView", "NSWindow", "NSScreen", "NSControl"] }
objc2-core-foundation = { version = "0.3", default-features = false, features = ["std", "CFCGTypes", "objc2", "bitflags"] }
objc2-foundation = { version = "0.3", default-features = false, features = ["std", "alloc", "block2", "bitflags", "libc", "objc2-core-foundation", "NSArray", "NSDate", "NSEnumerator", "NSGeometry", "NSNotification", "NSObject", "NSObjCRuntime", "NSString", "NSThread", "NSURL"] }
termion = "4"
