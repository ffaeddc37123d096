//! Error types returned by the lexer, the parsers and the drivers.

use std::sync::Arc;

use vstd::prelude::*;

use crate::validation::Error as ValidationError;

verus! {

/// Context: unknown.
pub const ERRCTX_UNKNOWN: &'static str = "in unknown context";
/// Context: character data.
pub const ERRCTX_TEXT: &'static str = "in text node";
/// Context: attribute value.
pub const ERRCTX_ATTVAL: &'static str = "in attribute value";
/// Context: a name.
pub const ERRCTX_NAME: &'static str = "in name";
/// Context: the first character of a name.
pub const ERRCTX_NAMESTART: &'static str = "at start of name";
/// Context: an attribute name.
pub const ERRCTX_ATTNAME: &'static str = "in attribute name";
/// Context: an element header.
pub const ERRCTX_ELEMENT: &'static str = "in element";
/// Context: an element footer.
pub const ERRCTX_ELEMENT_FOOT: &'static str = "in element footer";
/// Context: the closing `/>` of an element header.
pub const ERRCTX_ELEMENT_CLOSE: &'static str = "at element close";
/// Context: the XML declaration.
pub const ERRCTX_XML_DECL: &'static str = "in XML declaration";
/// Context: the start of the XML declaration.
pub const ERRCTX_XML_DECL_START: &'static str = "at start of XML declaration";
/// Context: the end of the XML declaration.
pub const ERRCTX_XML_DECL_END: &'static str = "at end of XML declaration";
/// Context: a CDATA section.
pub const ERRCTX_CDATA_SECTION: &'static str = "in CDATA section";
/// Context: the start of a CDATA section.
pub const ERRCTX_CDATA_SECTION_START: &'static str = "at start of CDATA section";
/// Context: an entity or character reference.
pub const ERRCTX_REF: &'static str = "in entity or character reference";
/// Context: the beginning of the document.
pub const ERRCTX_DOCBEGIN: &'static str = "at beginning of document";
/// Context: after the root element.
pub const ERRCTX_DOCEND: &'static str = "at end of document";

/// Violation of a well-formedness or namespace-well-formedness constraint or
/// the XML 1.0 grammar.
#[derive(Debug, Clone, PartialEq, Copy)]
pub enum XmlError {
    /// End-of-file encountered during a construct where more data was
    /// expected.
    InvalidEof(&'static str),
    /// Attempt to refer to an undeclared entity.
    UndeclaredEntity,
    /// Unicode codepoint which is not allowed in XML 1.0 encountered; the
    /// flag tells whether it came from a character reference.
    InvalidChar(&'static str, u32, bool),
    /// Unicode codepoint which was not expected at that point in the grammar.
    UnexpectedChar(&'static str, char, Option<&'static [&'static str]>),
    /// Byte which was not expected at that point in the grammar.
    UnexpectedByte(&'static str, u8, Option<&'static [&'static str]>),
    /// Generalized invalid syntactic construct.
    InvalidSyntax(&'static str),
    /// Token was not expected by the parser at that point in the grammar.
    UnexpectedToken(&'static str, &'static str, Option<&'static [&'static str]>),
    /// Attribute was declared multiple times in the same element.
    DuplicateAttribute,
    /// Ending tag name does not match opening tag.
    ElementMismatch,
    /// More than one colon encountered in a name.
    MultiColonName(&'static str),
    /// One side of the colon in a name was empty.
    EmptyNamePart(&'static str),
    /// Use of an undeclared namespace prefix.
    UndeclaredNamespacePrefix(&'static str),
    /// Attempt to redefine a reserved namespace prefix.
    ReservedNamespacePrefix,
    /// Attempt to bind a reserved namespace name to the wrong prefix.
    ReservedNamespaceName,
    /// Local name does not conform to the Name production (invalid start
    /// char).
    InvalidLocalName(&'static str),
    /// Declared namespace URI is empty.
    EmptyNamespaceUri,
}

/// Well-formedness violations.
pub type WFError = XmlError;
/// Namespace-well-formedness violations.
pub type NWFError = XmlError;

/// The error `e` with its context replaced by `ctx`, where it carries one.
pub open spec fn xml_error_with_context(e: XmlError, ctx: &'static str) -> XmlError {
    match e {
        XmlError::InvalidEof(_) => XmlError::InvalidEof(ctx),
        XmlError::InvalidChar(_, cp, fromref) => XmlError::InvalidChar(ctx, cp, fromref),
        XmlError::UnexpectedChar(_, ch, alt) => XmlError::UnexpectedChar(ctx, ch, alt),
        XmlError::UnexpectedToken(_, tok, alt) => XmlError::UnexpectedToken(ctx, tok, alt),
        XmlError::MultiColonName(_) => XmlError::MultiColonName(ctx),
        XmlError::EmptyNamePart(_) => XmlError::EmptyNamePart(ctx),
        XmlError::UndeclaredNamespacePrefix(_) => XmlError::UndeclaredNamespacePrefix(ctx),
        XmlError::InvalidLocalName(_) => XmlError::InvalidLocalName(ctx),
        other => other,
    }
}

impl XmlError {
    /// Replace the context information of the error, where it has any.
    pub fn with_context(self, ctx: &'static str) -> (r: XmlError)
        ensures r == xml_error_with_context(self, ctx),
    {
        match self {
            XmlError::InvalidEof(_) => XmlError::InvalidEof(ctx),
            XmlError::InvalidChar(_, cp, fromref) => XmlError::InvalidChar(ctx, cp, fromref),
            XmlError::UnexpectedChar(_, ch, alt) => XmlError::UnexpectedChar(ctx, ch, alt),
            XmlError::UnexpectedToken(_, tok, alt) => XmlError::UnexpectedToken(ctx, tok, alt),
            XmlError::MultiColonName(_) => XmlError::MultiColonName(ctx),
            XmlError::EmptyNamePart(_) => XmlError::EmptyNamePart(ctx),
            XmlError::UndeclaredNamespacePrefix(_) => XmlError::UndeclaredNamespacePrefix(ctx),
            XmlError::InvalidLocalName(_) => XmlError::InvalidLocalName(ctx),
            other => other,
        }
    }

    /// The grammar error corresponding to a validation error.
    pub open spec fn from_validation_spec(other: ValidationError) -> XmlError {
        match other {
            ValidationError::EmptyName => XmlError::InvalidSyntax("Name must have at least one Char"),
            ValidationError::InvalidChar(ch) => XmlError::UnexpectedChar(ERRCTX_UNKNOWN, ch, None),
        }
    }

    /// Convert a validation error into the corresponding grammar error.
    pub fn from_validation(other: ValidationError) -> (r: XmlError)
        ensures r == XmlError::from_validation_spec(other),
    {
        match other {
            ValidationError::EmptyName => XmlError::InvalidSyntax("Name must have at least one Char"),
            ValidationError::InvalidChar(ch) => XmlError::UnexpectedChar(ERRCTX_UNKNOWN, ch, None),
        }
    }
}

#[verifier::external_type_specification]
#[verifier::external_body]
pub struct ExIoError(std::io::Error);

#[verifier::external_type_specification]
#[verifier::external_body]
pub struct ExIoErrorKind(std::io::ErrorKind);

/// [`std::sync::Arc`]-based wrapper around [`std::io::Error`] to allow
/// cloning.
///
/// Besides the error, the wrapper records whether the error is of kind
/// `WouldBlock`, which is all the library's logic reads of it.
#[derive(Debug)]
pub struct IOErrorWrapper {
    inner: Arc<std::io::Error>,
    would_block: bool,
}

impl Clone for IOErrorWrapper {
    fn clone(&self) -> (r: Self)
        ensures r == *self,
    {
        IOErrorWrapper { inner: arc_clone(&self.inner), would_block: self.would_block }
    }
}

impl IOErrorWrapper {
    /// Whether the wrapped error is of kind `WouldBlock`, that is, whether
    /// it signals that the data source would have to block.
    pub closed spec fn would_block(&self) -> bool {
        self.would_block
    }

    /// The wrapped I/O error.
    pub closed spec fn io_error(&self) -> std::io::Error {
        *self.inner
    }

    /// Wrap an I/O error.
    pub(crate) fn wrap(e: std::io::Error) -> (r: IOErrorWrapper)
        ensures r.io_error() == e,
    {
        let would_block = io_error_is_would_block(&e);
        IOErrorWrapper { inner: Arc::new(e), would_block }
    }

    /// Access the wrapped I/O error.
    pub fn as_io_error(&self) -> (r: &std::io::Error)
        ensures *r == self.io_error(),
    {
        &*self.inner
    }

    /// The kind of the wrapped I/O error.
    pub fn kind(&self) -> std::io::ErrorKind {
        io_error_kind(&*self.inner)
    }

    /// Whether the wrapped I/O error signals that the source would have to
    /// block.
    pub fn is_would_block(&self) -> (r: bool)
        ensures r == self.would_block(),
    {
        self.would_block
    }
}

/// Calls [`std::sync::Arc::clone`]; the clone points to the same value.
#[verifier::external_body]
fn arc_clone(a: &Arc<std::io::Error>) -> (r: Arc<std::io::Error>)
    ensures r == *a,
{
    Arc::clone(a)
}

/// Calls [`std::io::Error::kind`]; nothing is claimed of the kind.
#[verifier::external_body]
fn io_error_kind(e: &std::io::Error) -> std::io::ErrorKind {
    e.kind()
}

/// Compares the result of [`std::io::Error::kind`] against
/// `WouldBlock`; nothing is claimed of the result, as the error is opaque.
#[verifier::external_body]
fn io_error_is_would_block(e: &std::io::Error) -> bool {
    e.kind() == std::io::ErrorKind::WouldBlock
}

/// Builds an [`std::io::Error`] of kind `WouldBlock` with
/// [`std::io::Error::new`]; the contract states nothing of the opaque value.
#[verifier::external_body]
fn new_would_block_error() -> std::io::Error {
    std::io::Error::new(std::io::ErrorKind::WouldBlock, "end of current buffer reached")
}

impl PartialEq for IOErrorWrapper {
    /// Two wrappers are equal iff they share the same allocation
    /// ([`std::sync::Arc::ptr_eq`]); nothing is claimed of the result.
    #[verifier::external_body]
    fn eq(&self, other: &Self) -> (r: bool) {
        Arc::ptr_eq(&self.inner, &other.inner)
    }
}

/// Error types which may be returned from the parser or lexer.
///
/// With the exception of [`Error::IO`], all errors are fatal and will be
/// returned indefinitely from the parser or lexer after the first encounter.
#[derive(Debug, PartialEq)]
pub enum Error {
    /// An I/O error was encountered during lexing; it may be retried.
    IO(IOErrorWrapper),
    /// An invalid UTF-8 byte was encountered during decoding.
    InvalidUtf8Byte(u8),
    /// An invalid Unicode scalar value was encountered during decoding.
    InvalidChar(u32),
    /// A violation of the XML 1.0 grammar or a well-formedness constraint.
    NotWellFormed(WFError),
    /// A violation of a namespace-well-formedness constraint.
    NotNamespaceWellFormed(NWFError),
    /// A forbidden construct was encountered during lexing or parsing.
    RestrictedXml(&'static str),
}

impl Clone for Error {
    fn clone(&self) -> (r: Self)
        ensures r == *self,
    {
        match self {
            Error::IO(e) => Error::IO(e.clone()),
            Error::InvalidUtf8Byte(b) => Error::InvalidUtf8Byte(*b),
            Error::InvalidChar(c) => Error::InvalidChar(*c),
            Error::NotWellFormed(e) => Error::NotWellFormed(*e),
            Error::NotNamespaceWellFormed(e) => Error::NotNamespaceWellFormed(*e),
            Error::RestrictedXml(m) => Error::RestrictedXml(m),
        }
    }
}

/// Result type of the crate.
pub type Result<T> = std::result::Result<T, Error>;

/// The error `e` with the context of a contained grammar error replaced by
/// `ctx`.
pub open spec fn error_with_context(e: Error, ctx: &'static str) -> Error {
    match e {
        Error::NotWellFormed(xe) => Error::NotWellFormed(xml_error_with_context(xe, ctx)),
        Error::NotNamespaceWellFormed(xe) => Error::NotNamespaceWellFormed(
            xml_error_with_context(xe, ctx),
        ),
        other => other,
    }
}

impl Error {
    /// Wrap an I/O error.
    pub fn io(e: std::io::Error) -> (r: Error)
        ensures r matches Error::IO(w) && w.io_error() == e,
    {
        Error::IO(IOErrorWrapper::wrap(e))
    }

    /// An error which signals that the end of the current buffer has been
    /// reached and that more data is needed (`WouldBlock`).
    pub fn would_block() -> (r: Error)
        ensures r matches Error::IO(w) && w.would_block(),
    {
        Error::IO(IOErrorWrapper { inner: Arc::new(new_would_block_error()), would_block: true })
    }

    /// The grammar error for an end of file inside a construct.
    pub fn wfeof(ctx: &'static str) -> (r: Error)
        ensures r == Error::NotWellFormed(XmlError::InvalidEof(ctx)),
    {
        Error::NotWellFormed(XmlError::InvalidEof(ctx))
    }

    /// Replace the context information of a contained grammar error.
    pub fn with_context(self, ctx: &'static str) -> (r: Error)
        ensures r == error_with_context(self, ctx),
    {
        match self {
            Error::NotWellFormed(xe) => Error::NotWellFormed(xe.with_context(ctx)),
            Error::NotNamespaceWellFormed(xe) => Error::NotNamespaceWellFormed(xe.with_context(ctx)),
            other => other,
        }
    }

    /// Whether this is an I/O error which signals that the data source would
    /// have to block.
    pub fn is_would_block(&self) -> (r: bool)
        ensures r == (self matches Error::IO(w) && w.would_block()),
    {
        match self {
            Error::IO(e) => e.is_would_block(),
            _ => false,
        }
    }
}

/// Attach context to the error of a result, if any.
pub fn add_context<T>(r: Result<T>, ctx: &'static str) -> (out: Result<T>)
    ensures
        match r {
            Ok(v) => out == Ok::<T, Error>(v),
            Err(e) => out == Err::<T, Error>(error_with_context(e, ctx)),
        },
{
    match r {
        Ok(v) => Ok(v),
        Err(e) => Err(e.with_context(ctx)),
    }
}

} // verus!
