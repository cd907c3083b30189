//! Verified core of a resident audio-fingerprint matching engine: the fingerprint
//! domain, the dump grammar, the immutable shard format, store bookkeeping and the
//! integer kernels of the Panako-compatible matcher.

pub mod codec;
pub mod compare;
pub mod config;
pub mod digest;
pub mod dump;
pub mod durations;
pub mod error;
pub mod extract;
pub mod fingerprint;
pub mod generation;
pub mod identity;
pub mod keyed;
pub mod matcher;
pub mod passage;
pub mod pointer;
pub mod protocol;
pub mod proximity;
pub mod readback;
pub mod rebuild;
pub mod shard;
pub mod sorting;
pub mod span;
pub mod store;
pub mod text;

pub use error::Error;
pub use fingerprint::Fingerprint;
