//! The errors that reading an XMP packet can end in.

use vstd::prelude::*;

use crate::packet::XmpSourceSpan;

verus! {

/// Why an XMP packet was refused.
#[derive(Debug, Clone, PartialEq, Eq)]
#[non_exhaustive]
pub enum XmpError {
    /// The packet's text encoding or envelope is malformed.
    Encoding(&'static str),
    /// The XML is malformed.
    Xml(String),
    /// There is no `rdf:RDF` element.
    MissingRdf,
    /// A namespace prefix is used without a declaration.
    UnknownPrefix(String),
    /// The RDF/XML uses a construct that XMP prohibits.
    Prohibited(String),
    /// The RDF/XML uses a form that XMP does not support.
    UnsupportedForm(String),
    /// Two alternatives of one property carry the same language.
    DuplicateLang(String),
    /// One expanded top-level property name is declared twice.
    DuplicateProperty {
        /// Namespace URI of the property.
        namespace: String,
        /// Local name of the property.
        name: String,
        /// Where the property was declared first.
        first: XmpSourceSpan,
        /// Where it was declared again.
        duplicate: XmpSourceSpan,
    },
}

/// The mathematical form of an [`XmpError`].
pub enum ErrorView {
    /// See [`XmpError::Encoding`].
    Encoding(Seq<char>),
    /// See [`XmpError::Xml`].
    Xml(Seq<char>),
    /// See [`XmpError::MissingRdf`].
    MissingRdf,
    /// See [`XmpError::UnknownPrefix`].
    UnknownPrefix(Seq<char>),
    /// See [`XmpError::Prohibited`].
    Prohibited(Seq<char>),
    /// See [`XmpError::UnsupportedForm`].
    UnsupportedForm(Seq<char>),
    /// See [`XmpError::DuplicateLang`].
    DuplicateLang(Seq<char>),
    /// See [`XmpError::DuplicateProperty`].
    DuplicateProperty {
        /// Namespace URI of the property.
        namespace: Seq<char>,
        /// Local name of the property.
        name: Seq<char>,
        /// Where the property was declared first.
        first: XmpSourceSpan,
        /// Where it was declared again.
        duplicate: XmpSourceSpan,
    },
}

impl View for XmpError {
    type V = ErrorView;

    open spec fn view(&self) -> ErrorView {
        match self {
            XmpError::Encoding(m) => ErrorView::Encoding(m@),
            XmpError::Xml(m) => ErrorView::Xml(m@),
            XmpError::MissingRdf => ErrorView::MissingRdf,
            XmpError::UnknownPrefix(m) => ErrorView::UnknownPrefix(m@),
            XmpError::Prohibited(m) => ErrorView::Prohibited(m@),
            XmpError::UnsupportedForm(m) => ErrorView::UnsupportedForm(m@),
            XmpError::DuplicateLang(m) => ErrorView::DuplicateLang(m@),
            XmpError::DuplicateProperty { namespace, name, first, duplicate } => {
                ErrorView::DuplicateProperty {
                    namespace: namespace@,
                    name: name@,
                    first: *first,
                    duplicate: *duplicate,
                }
            },
        }
    }
}

/// The mathematical form of a result: of the value on success, of the error otherwise.
pub open spec fn outcome<T: View, E: View>(result: Result<T, E>) -> Result<T::V, E::V> {
    match result {
        Ok(value) => Ok(value@),
        Err(error) => Err(error@),
    }
}

/// The mathematical form of an optional value.
pub open spec fn option_view<T: View>(option: Option<T>) -> Option<T::V> {
    match option {
        Some(value) => Some(value@),
        None => None,
    }
}

} // verus!
