//! Tools for a console game service: an image-alignment core that matches
//! code regions between two builds of the same executable, plus the pure
//! logic of the track-pack service (slot lookups, version ordering, track
//! hashing and filtering).

pub mod client_id;
pub mod engine;
pub mod ids;
pub mod laws;
pub mod leaderboard;
pub mod matching;
pub mod oauth;
pub mod pack_list;
pub mod parse;
pub mod report;
pub mod resolve;
pub mod search;
pub mod section;
pub mod shared;
pub mod slot_lookup;
pub mod submit;
pub mod submit_track;
pub mod track;
pub mod track_database;
pub mod track_lines;
pub mod words;
pub mod wrappers;

pub use words::read_u32;
