//! A firmware-update bootloader's protocol core: a state machine that
//! decodes serial commands, drives page reads, writes and erases of flash,
//! computes checksums across pages, manages attribute records, and frames
//! responses, with every buffer owned by one party at a time.

pub mod boot;
pub mod crc;
pub mod decode;
pub mod layout;
pub mod wire;
