//! Decoding of FITS (Flexible Image Transport System) files held in memory.
//!
//! A buffer is cut into blocks of 2880 bytes and grouped into header/data
//! units, each header is parsed into its keyword cards and classified, and
//! the payload of each unit is described by the header's keywords and
//! decoded on demand.

pub mod bigendian;
pub mod block;
pub mod data;
pub mod decimal;
pub mod error;
pub mod fits;
pub mod hdu;
pub mod header;
pub mod ieee;
pub mod parser;
pub mod text;
