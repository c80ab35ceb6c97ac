//! Bit-granular adapters over byte streams.
//!
//! A [`container::Container`] hands out bits from a byte stream and a
//! [`writer::Writer`] packs bits into one. Both keep the fraction of a byte
//! that lies between two requests, and both use one bit order: the most
//! significant bit of a byte comes first. The bit handling itself is that of
//! [`queue::BitQueue`] and [`packer::BitPacker`], which work on bytes in
//! memory.

pub mod bits;
pub mod bitbuf;
pub mod error;
pub mod stream;
pub mod queue;
pub mod packer;
pub mod container;
pub mod writer;
pub mod laws;
