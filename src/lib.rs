//! Locality-sensitive hashing of a byte stream into a genome of short codes,
//! codon extraction, collision-map bucketing and distance scoring.
pub mod bits;
pub mod cmap;
mod rng;
pub mod feature;
pub mod codon;
pub mod topk;
