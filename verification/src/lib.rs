//! A verified DNS wire-format codec: a fixed-size cursor buffer, the
//! bit-packed message header, question and resource-record codecs with
//! domain-name compression, and the response-building rules of a small
//! DNS relay.

pub mod buffer;
pub mod errors;
pub mod header;
pub mod laws;
pub mod name;
pub mod packet;
pub mod question;
pub mod record;
pub mod relay;
