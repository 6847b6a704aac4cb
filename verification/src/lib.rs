//! Verified core of an HLS-aware streaming proxy: URL obfuscation, playlist
//! rewriting, CORS decisions and the request/response planning around them.

pub mod crypto;
pub mod b64;
pub mod text;
pub mod urls;
pub mod percent;
pub mod pipe;
pub mod config;
pub mod cors;
pub mod proxy;
pub mod links;
pub mod headers;
pub mod upstream;
