//! Exhaustive construction of a hash-chain table over a fixed-width nonce space.
//!
//! Every nonce of the configured width is mapped, through a stretched BLAKE3
//! digest and an XOR-folding reduction, to a successor nonce. The explorer walks
//! these chains from the smallest nonce not yet visited, records the digest of
//! every nonce it visits, and counts the points where a chain runs into a nonce
//! that is already known.

pub mod chain;
pub mod config;
pub mod explorer;
pub mod nonce;
pub mod oracle;
pub mod orbit;
pub mod reducer;
pub mod table;
