//! Lookup of passwords and SHA-1 digests in a large sorted corpus of
//! `DIGEST:COUNT` lines, by binary search over byte offsets.
pub mod digest;
pub mod record;
pub mod search;
