//! ICC profiles: their headers, tags, identities and a catalogue of standard ones.

pub mod catalogue;
pub mod header;
pub mod identity;
pub mod md5;
pub mod profile;
pub mod reader;
pub mod tags;
