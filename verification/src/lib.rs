//! Resolution of on-chain approval events against token metadata.
//!
//! The core of the crate is a single-flight memoizing cache: a map from
//! token address to metadata whose discipline guarantees that the remote
//! metadata lookup for a key runs at most once even when many resolution
//! requests for that key race. Around it stand the orchestration steps
//! (key deduplication, fail-fast collection of fetch outcomes, and the
//! join of events with their resolved metadata) and a digit-string
//! arithmetic helper used to display token amounts at a declared scale.
//!
//! Remote I/O itself (the event query and the metadata calls) lives with
//! the caller; the library states and proves what every step of the
//! resolution does with the values the caller hands in.

pub mod amount;
pub mod cached;
pub mod erc20;
pub mod orchestrate;
