//! Verified core of the utoaudio music player: lyric conversion, m3u8
//! playlists, library bookkeeping and the audio engine's plain data types.

use vstd::prelude::*;

pub mod engine;
pub mod floats;
pub mod import;
pub mod library;
pub mod lyrics;
pub mod m3u_laws;
pub mod paths;
pub mod playlist;
pub mod text;

verus! {

/// The crate's version string.
pub fn version() -> (v: &'static str)
    ensures
        v@ == "0.1.0"@,
{
    "0.1.0"
}

} // verus!
