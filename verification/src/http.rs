//! HTTP message types and parsers.

pub mod header;
pub mod parse;
pub mod request;
pub mod response;
pub mod text;
