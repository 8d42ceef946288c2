//! Orchestration of derived data for public commits: windowed commit
//! enumeration, the commit snapshot codec, the derivation capability with its
//! regenerate overlay, the staged write overlay, and the backfill and tail
//! drivers.
pub mod backfill;
pub mod blobstore;
pub mod codec;
pub mod derive;
pub mod enumerate;
pub mod ids;
pub mod kinds;
pub mod tail;
pub mod windows;
