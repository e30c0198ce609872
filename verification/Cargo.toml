[package]
name = "rustscreen"
version = "0.1.0"
edition = "2021"
publish = false

[dependencies]
postcard = { version = "=1.1.3", default-features = false, features = ["alloc"] }
libc = "0.2"
log = "0.4"
nusb = "=0.2.9"
jni = "0.22"
android_logger = "0.15"
android-activity = { version = "0.6", features = ["native-activity"] }
ndk-sys = { version = "0.6", features = ["media"] }
objc2 = "0.6"
objc2-foundation = "0.3"
objc2-core-foundation = "0.3"
objc2-core-graphics = "0.3"
objc2-core-media = "0.3"
objc2-screen-capture-kit = "0.3"
objc2-video-toolbox = "0.3"
block2 = "0.6"
dispatch2 = "0.3"
core-graphics = "0.25"
