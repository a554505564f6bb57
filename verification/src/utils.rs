//! Error surface and small memory helpers.

pub mod error;
pub mod memory;
