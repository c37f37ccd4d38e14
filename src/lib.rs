//! Integrity verification of multi-pack indices and a sideband-demultiplexing
//! reader over packet lines.
pub mod checksum;
pub mod multi_index;
pub mod packetline;
pub mod sidebands;
