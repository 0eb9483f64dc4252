//! Ordered concatenation and fingerprinting of file contents.
//!
//! A caller reads an ordered list of files however it likes (typically in
//! parallel), tags every result with the position of its file in that list,
//! and hands the gathered results over. This crate puts them back in order
//! and either joins the contents into one document with normalised blank
//! lines between files, or computes one order-sensitive SHA-256 fingerprint.

pub mod reader;
pub mod builder;
pub mod hasher;
