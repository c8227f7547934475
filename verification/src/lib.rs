//! Audio sample detection: locating where a short snippet reoccurs inside
//! longer tracks.
//!
//! The crate holds the integer side of the matching engine. A spectrogram
//! reaches it as a matrix of magnitude levels, unsigned integers ordered as
//! the magnitudes they stand for; landmark fingerprints, collision voting,
//! the choice of the best dense alignment, cache naming and the scheduling of
//! a batch scan are computed and proved here. Beside the engine stand the
//! track metadata of the music service and the parts of its authorisation
//! flow that compute.

pub mod spectrogram;
pub mod peaks;
pub mod landmark;
pub mod matcher;
pub mod classes;
pub mod self_match;
pub mod embedding;
pub mod order;
pub mod recovery;
pub mod held;
pub mod dense;
pub mod scanner;
pub mod auth;
pub mod cache;
pub mod bearer_token;
pub mod track;
pub mod track_id;
