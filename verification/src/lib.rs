//! Restricted XML 1.0 parsing and encoding, with namespacing.
//!
//! No external resources, no custom entities, no DTD, no processing
//! instructions, no comments, UTF-8 only, XML 1.0 only;
//! namespace-well-formedness is enforced. Parsing is streamed (the parser
//! emits a subset of SAX events) and can be driven push- or pull-based;
//! encoding is streamed too.
use vstd::prelude::*;

pub mod validation;
pub mod error;
pub mod strings;
pub mod lexer;
pub mod parser;
pub mod driver;
pub mod writer;
pub mod future;
pub mod display;

pub use driver::{as_eof_flag, EventRead, FeedParser, PullDriver, PullParser, PushDriver};
pub use error::{Error, Result};
pub use lexer::{Lexer, LexerOptions};
pub use parser::{
    LexerAdapter, NamespaceResolver, Parse, Parser, RawEvent, RawParser, RawQName, ResolvedEvent,
    ResolvedQName, XMLVersion, XMLNS_XML,
};
pub use strings::{CData, CDataStr, NCName, NCNameStr, Name, NameStr};
pub use writer::{Encoder, Item};
pub use future::{AsyncDriver, AsyncParser};

verus! {
} // verus!
