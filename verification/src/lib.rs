//! Brute-force password recovery for archives protected by the legacy
//! PKWARE stream cipher (the "traditional" encryption of the ZIP format).
//!
//! The crate provides the cipher state machine, the candidate-password
//! enumerator with its cached key-prefix stack, the eight-lane unrolled
//! check of the last password character, the progress bookkeeping, and a
//! parser for the records of a ZIP archive.

pub mod crack;
pub mod decrypt;
pub mod info;
pub mod opt;
pub mod password_iter;
pub mod zipfile;
