//! Second-stage bootstrap for a 64-bit kernel: page-table construction over a
//! raw physical-frame allocator, image loading, and the per-core sequencing
//! that ends in the hand-off to long mode.
//!
//! Everything here is pure logic over plain values. Hardware access (serial
//! output, network download, the mode switch itself) is left to the caller,
//! which feeds this library the values those steps produce.

pub mod entry;
pub mod layout;
pub mod phys;
pub mod arena;
pub mod table;
pub mod mapping;
pub mod image;
pub mod stack;
pub mod spaces;
pub mod boot;
