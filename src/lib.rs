//! A simulated RAID-II disk array: bytes are protected by an extended Hamming
//! (SEC-DED) code and striped across thirteen virtual disks, one bit per disk.
pub mod hamming_encoding;
pub mod raid;
