//! Engine for comparing pairs of HTTP responses ("left" and "right" variants
//! of a named comparison): request descriptors, body normalization
//! (JSON pretty-printing plus line redaction), a URL-keyed response cache with
//! a persistent JSON form, and the planning/collection logic around concurrent
//! fetches. Network and file I/O live outside this crate; the engine exposes
//! the decisions and transformations as verified functions.

pub mod args;
pub mod cache;
pub mod client;
pub mod codec;
pub mod fetch;
pub mod normalize;
pub mod request;
pub mod response;
pub mod text;
