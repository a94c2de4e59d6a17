//! Rendering of e-mail messages: address headers with RFC 2047 words and
//! 76-column folding, and MIME part trees with boundaries and transfer
//! encodings chosen from the content.

pub mod codec;
pub mod rfc2047;
pub mod address;
pub mod header;
pub mod boundary;
pub mod mime;
