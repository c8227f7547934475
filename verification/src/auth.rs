//! Authorisation with the music service.

pub mod pkce;
