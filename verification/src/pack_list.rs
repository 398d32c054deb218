//! Rows of the pack database, as plain values.

use vstd::prelude::*;

verus! {

/// How a track slots into a pack: a race course, or one of the two battle
/// modes.
#[derive(Debug, Clone, Copy, PartialEq, Eq, Structural)]
pub enum TrackType {
    Race,
    Coin,
    Balloon,
}

/// One pack row.
#[derive(Debug)]
pub struct DatabasePack {
    pub hash: Vec<u8>,
    pub author_id: i64,
    pub approved: bool,
    pub downloads: i64,
    pub name: String,
    pub description: String,
}

/// One pack-contents row: which track, in which pack, in which role.
#[derive(Debug)]
pub struct DatabaseTrack {
    pub pack_hash: Vec<u8>,
    pub track_hash: Vec<u8>,
    pub kind: TrackType,
}

} // verus!
