//! Decoding and parsing of `ssr://` subscription links.
//!
//! A subscription body is a newline-separated list of records.  Each record
//! is `ssr://` followed by a modified-base64 payload; the payload decodes to
//! `ip:port:protocol:method:obfs:password/?key=value&...` where the password
//! and every parameter value are themselves modified-base64 encoded.
//!
//! The crate is organised bottom-up: `text` holds character-sequence
//! utilities, `codec` the modified-base64 codec, `errors` the failure
//! taxonomy, `ssr` the link and subscription resolvers, and `cli` the
//! small argument helpers.

pub mod cli;
pub mod codec;
pub mod errors;
pub mod ssr;
pub mod text;
