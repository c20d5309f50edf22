//! Access-unit splitter for Annex-B style elementary streams.
//!
//! The core of this library segments a raw byte buffer, in which coded
//! units are delimited by 4-byte start codes, into an ordered, gapless
//! sequence of access units ("frames"), each given as a half-open byte
//! range of the buffer. A playback helper chooses which frame a cyclic
//! delivery loop hands to a decoder next.

pub mod laws;
pub mod playback;
pub mod splitter;
