//! Verified core of a Csound-hosting audio plugin: the sample ring buffers
//! between host and engine, the reading of channel counts from a CSD file,
//! and the scheduling of audio blocks around timed events.

pub mod ring;
pub mod buffer;
pub mod csd_info;
pub mod xml;
pub mod processor;
