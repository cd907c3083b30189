//! The one pinned fingerprint configuration and its identity.
use vstd::prelude::*;
use vstd::utf8::*;

use crate::digest::{hex_lower, sha256, sha256_hex};

verus! {

pub const SAMPLE_RATE: u32 = 16000;
pub const TIME_RESOLUTION: u32 = 128;
pub const TRANSFORM_LATENCY_SAMPLES: u32 = 12464;
pub const QUERY_RANGE: u64 = 2;
pub const MIN_HITS_UNFILTERED: usize = 10;
pub const MIN_HITS_FILTERED_EXCLUSIVE: usize = 5;
pub const HIT_PART_MAX_SIZE: usize = 250;
pub const HIT_PART_DIVIDER: usize = 5;
/// Largest landmark hash: hashes use 34 bits.
pub const MAX_HASH: u64 = 0x3_ffff_ffff;
pub const MAX_FREQUENCY_BIN: u16 = 512;

/// The canonical text of the pinned configuration.
pub open spec fn spec_config_identity() -> Seq<char> {
    "panako-v0;sr=16000;step=128;latency=12464;freq=110:7040:440;bpo=85;filters=103:25;fp-time=2:33;fp-freq=1:128;query-range=2;hits=10:5;duration=5;coverage=.2;time-factor=.8:1.2;freq-factor=.8:1.2"@
}

/// The configuration identity stamped into every store generation: the lowercase hex
/// SHA-256 of the canonical configuration text.
pub open spec fn spec_config_id() -> Seq<char> {
    hex_lower(sha256(encode_utf8(spec_config_identity())))
}

pub fn config_identity() -> (s: &'static str)
    ensures
        s@ == spec_config_identity(),
{
    "panako-v0;sr=16000;step=128;latency=12464;freq=110:7040:440;bpo=85;filters=103:25;fp-time=2:33;fp-freq=1:128;query-range=2;hits=10:5;duration=5;coverage=.2;time-factor=.8:1.2;freq-factor=.8:1.2"
}

pub fn config_id() -> (id: String)
    ensures
        id@ == spec_config_id(),
{
    sha256_hex(config_identity().as_bytes())
}

} // verus!
