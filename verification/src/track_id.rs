//! Identifiers of tracks, and the addresses under which the music service
//! describes a track.

use vstd::prelude::*;

verus! {

/// The identifier of a track.
#[derive(Debug)]
pub struct TrackId(pub String);

impl View for TrackId {
    type V = Seq<char>;

    open spec fn view(&self) -> Seq<char> {
        self.0@
    }
}

impl TrackId {
    /// The identifier as text.
    pub fn as_str(&self) -> (text: &str)
        ensures
            text@ == self@,
    {
        self.0.as_str()
    }

    /// The identifier as text, owned.
    pub fn to_string(&self) -> (text: String)
        ensures
            text@ == self@,
    {
        self.0.clone()
    }
}

impl std::ops::Deref for TrackId {
    type Target = str;

    fn deref(&self) -> (text: &str)
        ensures
            text@ == self@,
    {
        self.0.as_str()
    }
}

impl AsRef<str> for TrackId {
    fn as_ref(&self) -> (text: &str)
        ensures
            text@ == self@,
    {
        self.0.as_str()
    }
}

/// The address of the description of a track.
pub open spec fn spec_track_url(id: Seq<char>) -> Seq<char> {
    "https://api.spotify.com/v1/tracks/"@ + id
}

/// The address of the audio features of a track.
pub open spec fn spec_audio_features_url(id: Seq<char>) -> Seq<char> {
    "https://api.spotify.com/v1/audio-features/"@ + id
}

/// Builds the address of the description of a track.
pub fn track_url(track_id: &TrackId) -> (url: String)
    ensures
        url@ == spec_track_url(track_id@),
{
    let mut url = String::from_str("https://api.spotify.com/v1/tracks/");
    url.append(track_id.as_str());
    url
}

/// Builds the address of the audio features of a track.
pub fn audio_features_url(track_id: &TrackId) -> (url: String)
    ensures
        url@ == spec_audio_features_url(track_id@),
{
    let mut url = String::from_str("https://api.spotify.com/v1/audio-features/");
    url.append(track_id.as_str());
    url
}

} // verus!
