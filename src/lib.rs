//! Discovery of reachable, low-latency IPv4 edge addresses: expansion of
//! published address blocks, textual prefix exclusion, bounded random
//! sampling and latency ranking of probe outcomes.
pub mod address;
pub mod expand;
pub mod filter;
pub mod sample;
pub mod rank;
pub mod source;
pub mod args;
