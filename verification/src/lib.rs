//! Playback and metadata core of a single-track desktop music player.
//!
//! The crate holds the decisions of the player as verified functions on plain
//! values: the playback state machine, the lyric parser, the metadata cache
//! and the bridge to the operating system's media controls. Devices, files and
//! windows stay with the host, which performs the actions that these functions
//! return and reports back what it observed.

pub mod startup;
pub mod text;
pub mod timestamp;
pub mod lyrics;
pub mod codec;
pub mod metadata;
pub mod player;
pub mod system;
