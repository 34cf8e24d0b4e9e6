//! XMP metadata packets and ICC profile identity.
//!
//! An XMP packet is RDF/XML inside an `<?xpacket?>` wrapper. The library reads such a packet into
//! the [`XmpMeta`] property graph, which holds simple, structured and array values with qualifiers
//! and language alternatives, and writes a graph back in one canonical form.
//!
//! [`XmpMeta::from_packet`] reads a packet and [`XmpMeta::to_packet`] writes one. [`XmpEdit`]
//! changes an existing packet and keeps its encoding and envelope. [`XmpPacket`] gives access to
//! the envelope itself, and the repair functions mend packets that do not parse.
//!
//! The parser accepts the broad RDF/XML input that XMP permits, in UTF-8, UTF-16 and UTF-32; the
//! writer emits UTF-8 in one fixed form. The XML lexer is an implementation detail and does not
//! appear in the interface.
//!
//! Module [`icc`] reads ICC profiles: their headers, their tags and their identities.

pub mod declaring;
pub mod document;
pub mod edit;
pub mod encoding;
pub mod enveloping;
pub mod error;
pub mod escaping;
pub mod forms;
pub mod growing;
pub mod headers;
pub mod icc;
pub mod mending;
pub mod model;
pub mod namespace;
pub mod naming;
pub mod nesting;
pub mod packet;
pub mod prefix_case;
pub mod reader;
pub mod relexing;
pub mod renaming;
pub mod repair;
pub mod repeating;
pub mod rescanning;
pub mod resplicing;
pub mod rewriting;
pub mod rooting;
pub mod round_trip;
pub mod scoping;
pub mod shifting;
pub mod spans;
pub mod structures;
pub mod text;
pub mod tree;
pub mod writer;
pub mod xml;

pub use crate::document::{
    XmpDescriptionLocation, XmpDocument, XmpPropertyForm, XmpPropertyLocation,
};
pub use crate::edit::XmpEdit;
pub use crate::encoding::XmpEncoding;
pub use crate::error::XmpError;
pub use crate::icc::catalogue::{ProfileAssets, StandardProfile};
pub use crate::icc::header::{
    ColorSpace, DeviceClass, IccError, ProfileHeader, ProfileVersion, Signature,
};
pub use crate::icc::identity::{IccProfileIdentity, ProfileId};
pub use crate::icc::profile::IccProfile;
pub use crate::icc::reader::IccReader;
pub use crate::icc::tags::TagData;
pub use crate::model::{XmpArray, XmpItem, XmpMeta, XmpProperty, XmpValue};
pub use crate::namespace::{
    Namespace, WellKnownNs, RDF_NAMESPACE, XML_NAMESPACE, XMPMETA_NAMESPACE,
};
pub use crate::packet::{DecodedXmpPacket, XmpEnvelope, XmpPacket, XmpSourceSpan};
pub use crate::prefix_case::{rdf_prefix_case_mismatch, repair_rdf_prefix_case};
pub use crate::repair::{
    canonicalise_xmp_packet, close_xmp_wrappers, repair_xmp_serialisation, CANONICAL_BEGIN,
    CANONICAL_PACKET_ID,
};
pub use crate::tree::XmpNamespaceBinding;
pub use crate::writer::XmpWriter;
