//! Track metadata as the music service describes it.

use vstd::prelude::*;

verus! {

/// A track of the catalogue.
#[derive(Default, Debug, Clone, PartialEq)]
pub struct Track {
    pub album: Album,
    pub artists: Vec<Artist>,
    pub available_markets: Vec<String>,
    pub disc_number: i64,
    pub duration_ms: i64,
    pub explicit: bool,
    pub external_ids: ExternalIds,
    pub external_urls: ExternalUrls,
    pub href: String,
    pub id: String,
    pub is_playable: Option<bool>,
    pub linked_from: Option<LinkedFrom>,
    pub restrictions: Option<Restrictions>,
    pub name: String,
    pub popularity: i64,
    pub preview_url: Option<String>,
    pub track_number: i64,
    pub type_field: String,
    pub uri: String,
    pub is_local: bool,
}

/// The album a track appears on.
#[derive(Default, Debug, Clone, PartialEq)]
pub struct Album {
    pub album_type: String,
    pub total_tracks: i64,
    pub available_markets: Vec<String>,
    pub external_urls: ExternalUrls,
    pub href: String,
    pub id: String,
    pub images: Vec<Image>,
    pub name: String,
    pub release_date: String,
    pub release_date_precision: String,
    pub restrictions: Option<Restrictions>,
    pub type_field: String,
    pub uri: String,
    pub artists: Vec<Artist>,
}

/// Links to an item outside the service's API.
#[derive(Default, Debug, Clone, PartialEq)]
pub struct ExternalUrls {
    pub spotify: String,
}

/// A cover image.
#[derive(Default, Debug, Clone, PartialEq)]
pub struct Image {
    pub url: String,
    pub height: i64,
    pub width: i64,
}

/// Why an item is restricted.
#[derive(Default, Debug, Clone, PartialEq)]
pub struct Restrictions {
    pub reason: String,
}

/// An artist of a track or an album.
#[derive(Default, Debug, Clone, PartialEq)]
pub struct Artist {
    pub external_urls: ExternalUrls,
    pub href: String,
    pub id: String,
    pub name: String,
    pub type_field: String,
    pub uri: String,
}

/// Identifiers of a track in other catalogues.
#[derive(Default, Debug, Clone, PartialEq)]
pub struct ExternalIds {
    pub isrc: Option<String>,
    pub ean: Option<String>,
    pub upc: Option<String>,
}

/// The track that a relinked track stands for.
#[derive(Default, Debug, Clone, PartialEq)]
pub struct LinkedFrom {}

} // verus!
