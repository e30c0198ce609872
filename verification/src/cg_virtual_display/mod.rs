//! The virtual display: its configuration and its place on the desktop.

pub mod config;
