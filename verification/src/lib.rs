//! A small, verified HTTP/1.1 core: request framing and parsing, routing,
//! URL-encoded form decoding, multipart upload decoding, and response
//! serialization, all specified over byte sequences.
pub mod actions;
pub mod bytes;
pub mod error;
pub mod multipart;
pub mod pages;
pub mod clock;
pub mod form;
pub mod hash;
pub mod percent;
pub mod request;
pub mod response;
pub mod router;
