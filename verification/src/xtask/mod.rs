//! Build and release automation.

pub mod logic;
pub mod plan;
