//! Masks sensitive values in text with stable placeholders, and puts the real
//! values back when placeholder-bearing text is written back.

pub mod text;
pub mod detectors;
pub mod pattern;
pub mod store;
pub mod anonymize;
pub mod roundtrip;
pub mod config;
pub mod documents;
pub mod edit;
pub mod xml;
pub mod archive;
pub mod tools;
pub mod protocol;
