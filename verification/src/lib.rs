//! A verified driver-package indexer and matcher: parses Windows INF texts
//! into structured entries, persists them as a flat serialized index,
//! ranks candidate packages per device under hardware-ID priority and
//! version tie-break rules, and decides the multi-pass install loop.
//!
//! Every function in this crate carries a contract that Verus checks; the
//! few calls into outside crates (charset detection and decoding, PE
//! header parsing, random characters) stand behind small trusted wrappers
//! whose contracts state what those crates document.

pub mod index;
pub mod inf;
pub mod matcher;
pub mod orchestrator;
pub mod text;
pub mod util;
pub mod version;
