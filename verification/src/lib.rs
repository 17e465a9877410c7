//! Verified core of a serial telemetry pipeline.
//!
//! A producer serializes a set of named numeric channel readings into a
//! JSON-style text frame terminated by CR LF and writes it over a serial
//! link; a consumer reads raw byte chunks from the link, extracts the
//! most recent complete frame, decodes it back into a reading, and hands
//! it to an event bus. This crate holds the framing, extraction and
//! decoding logic with proofs; the hardware and I/O around it stay
//! outside.

pub mod decode;
pub mod encode;
pub mod extract;
pub mod laws;
pub mod pipeline;
pub mod reading;
pub mod utf8;
