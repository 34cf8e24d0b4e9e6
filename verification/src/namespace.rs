//! Namespace URIs and the prefixes that stand for them.

use vstd::prelude::*;

verus! {

/// The RDF namespace.
pub const RDF_NAMESPACE: &'static str = "http://www.w3.org/1999/02/22-rdf-syntax-ns#";

/// The namespace that the prefix `xml` is always bound to.
pub const XML_NAMESPACE: &'static str = "http://www.w3.org/XML/1998/namespace";

/// The namespace of the `x:xmpmeta` wrapper element.
pub const XMPMETA_NAMESPACE: &'static str = "adobe:ns:meta/";

/// A namespace URI together with its preferred prefix.
#[derive(Debug, PartialEq, Eq)]
pub struct Namespace {
    /// Namespace URI.
    pub uri: String,
    /// Preferred prefix, without the colon.
    pub prefix: String,
}

/// The mathematical form of a [`Namespace`].
pub struct NamespaceView {
    /// See [`Namespace::uri`].
    pub uri: Seq<char>,
    /// See [`Namespace::prefix`].
    pub prefix: Seq<char>,
}

impl View for Namespace {
    type V = NamespaceView;

    open spec fn view(&self) -> NamespaceView {
        NamespaceView { uri: self.uri@, prefix: self.prefix@ }
    }
}

impl Namespace {
    /// A namespace with the given URI and preferred prefix.
    #[must_use]
    pub fn new(uri: &str, prefix: &str) -> (r: Self)
        ensures
            r@.uri == uri@,
            r@.prefix == prefix@,
    {
        Self { uri: uri.to_owned(), prefix: prefix.to_owned() }
    }
}

impl Clone for Namespace {
    fn clone(&self) -> (r: Self)
        ensures
            r@ == self@,
    {
        Self { uri: self.uri.clone(), prefix: self.prefix.clone() }
    }
}

/// The mathematical form of a list of namespaces.
pub open spec fn namespaces_view(namespaces: Seq<Namespace>) -> Seq<NamespaceView> {
    namespaces.map_values(|n: Namespace| n@)
}

/// The schema namespaces that XMP itself defines or adopts.
#[derive(Debug, Clone, Copy, PartialEq, Eq, Structural)]
#[non_exhaustive]
pub enum WellKnownNs {
    /// Dublin Core (`dc`).
    DublinCore,
    /// XMP basic (`xmp`).
    Xmp,
    /// XMP rights management (`xmpRights`).
    XmpRights,
    /// XMP media management (`xmpMM`).
    XmpMm,
    /// Adobe PDF (`pdf`).
    Pdf,
    /// Photoshop (`photoshop`).
    Photoshop,
    /// EXIF properties of TIFF images (`tiff`).
    Tiff,
    /// EXIF (`exif`).
    Exif,
}

impl WellKnownNs {
    /// The namespace URI.
    pub open spec fn spec_uri(self) -> &'static str {
        match self {
            WellKnownNs::DublinCore => "http://purl.org/dc/elements/1.1/",
            WellKnownNs::Xmp => "http://ns.adobe.com/xap/1.0/",
            WellKnownNs::XmpRights => "http://ns.adobe.com/xap/1.0/rights/",
            WellKnownNs::XmpMm => "http://ns.adobe.com/xap/1.0/mm/",
            WellKnownNs::Pdf => "http://ns.adobe.com/pdf/1.3/",
            WellKnownNs::Photoshop => "http://ns.adobe.com/photoshop/1.0/",
            WellKnownNs::Tiff => "http://ns.adobe.com/tiff/1.0/",
            WellKnownNs::Exif => "http://ns.adobe.com/exif/1.0/",
        }
    }

    /// The conventional prefix, without the colon.
    pub open spec fn spec_prefix(self) -> &'static str {
        match self {
            WellKnownNs::DublinCore => "dc",
            WellKnownNs::Xmp => "xmp",
            WellKnownNs::XmpRights => "xmpRights",
            WellKnownNs::XmpMm => "xmpMM",
            WellKnownNs::Pdf => "pdf",
            WellKnownNs::Photoshop => "photoshop",
            WellKnownNs::Tiff => "tiff",
            WellKnownNs::Exif => "exif",
        }
    }

    /// The namespace URI.
    #[must_use]
    pub fn uri(self) -> (r: &'static str)
        ensures
            r@ == self.spec_uri()@,
    {
        match self {
            WellKnownNs::DublinCore => "http://purl.org/dc/elements/1.1/",
            WellKnownNs::Xmp => "http://ns.adobe.com/xap/1.0/",
            WellKnownNs::XmpRights => "http://ns.adobe.com/xap/1.0/rights/",
            WellKnownNs::XmpMm => "http://ns.adobe.com/xap/1.0/mm/",
            WellKnownNs::Pdf => "http://ns.adobe.com/pdf/1.3/",
            WellKnownNs::Photoshop => "http://ns.adobe.com/photoshop/1.0/",
            WellKnownNs::Tiff => "http://ns.adobe.com/tiff/1.0/",
            WellKnownNs::Exif => "http://ns.adobe.com/exif/1.0/",
        }
    }

    /// The conventional prefix, without the colon.
    #[must_use]
    pub fn prefix(self) -> (r: &'static str)
        ensures
            r@ == self.spec_prefix()@,
    {
        match self {
            WellKnownNs::DublinCore => "dc",
            WellKnownNs::Xmp => "xmp",
            WellKnownNs::XmpRights => "xmpRights",
            WellKnownNs::XmpMm => "xmpMM",
            WellKnownNs::Pdf => "pdf",
            WellKnownNs::Photoshop => "photoshop",
            WellKnownNs::Tiff => "tiff",
            WellKnownNs::Exif => "exif",
        }
    }
}

} // verus!
