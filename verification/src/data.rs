//! The payload of a header/data unit: arrays and tables.

pub mod array;
pub mod data;
pub mod image;
pub mod primary;
pub mod tables;
