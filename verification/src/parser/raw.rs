//! Restricted XML 1.0 parser, sans namespacing.
//!
//! The [`RawParser`] converts [`Token`]s into [`RawEvent`]s. Observing a raw
//! event does not imply that the document is well-formed or
//! namespace-well-formed: duplicate attributes, undeclared prefixes and
//! attributes which resolve to the same expanded name are not detected here.
use std::collections::VecDeque;

use vstd::prelude::*;

use crate::error::{
    Error, Result, XmlError, ERRCTX_ATTNAME, ERRCTX_DOCBEGIN, ERRCTX_DOCEND, ERRCTX_ELEMENT,
    ERRCTX_ELEMENT_FOOT, ERRCTX_TEXT, ERRCTX_XML_DECL, xml_error_with_context,
};
use crate::lexer::{
    token_metrics_spec, token_name_spec, Token, TokenMetrics, NAME_ATTRIBUTEVALUE, NAME_ELEMENTFOOTSTART,
    NAME_ELEMENTHEADCLOSE, NAME_ELEMENTHEADSTART, NAME_ELEMENTHFEND, NAME_EQ, NAME_NAME, NAME_TEXT,
    NAME_XMLDECLEND, NAME_XMLDECLSTART,
};
use crate::strings::{
    ascii_ci_eq_spec, collect_chars, eq_ignore_ascii_case, split_name_spec, CData, NCName, Name,
};

use super::common::{delivered_tokens, EventMetrics, Parse, TokenRead, XMLVersion, XMLNS_XML};
use crate::lexer::vec_shrink_to_fit;

verus! {

/// Pair of an optional namespace prefix and a localpart, commonly used in
/// element and attribute names.
pub type RawQName = (Option<NCName>, NCName);

/// The characters of a [`RawQName`].
pub type QNameView = (Option<Seq<char>>, Seq<char>);

/// The characters of the parts of a qualified name.
pub open spec fn qname_view(q: RawQName) -> QNameView {
    (match q.0 {
        Some(p) => Some(p@),
        None => None,
    }, q.1@)
}

/// Logical XML document parts, as emitted by the [`RawParser`].
///
/// A well-formed document generates zero or one `XMLDeclaration` followed
/// by one element sequence: `ElementHeadOpen`, zero or more `Attribute`,
/// `ElementHeadClose`, then element sequences or `Text` mixed arbitrarily,
/// then `ElementFoot`.
#[derive(PartialEq, Eq, Debug)]
pub enum RawEvent {
    /// The XML declaration (`encoding` and `standalone` are forced to
    /// `utf-8` and `yes` and not emitted).
    XMLDeclaration(EventMetrics, XMLVersion),
    /// Start of an XML element header, with the prefix/localpart pair.
    ElementHeadOpen(EventMetrics, RawQName),
    /// Attribute key/value pair; namespace declarations are plain
    /// attributes here.
    Attribute(EventMetrics, RawQName, CData),
    /// End of an XML element header.
    ElementHeadClose(EventMetrics),
    /// The end of an XML element.
    ElementFoot(EventMetrics),
    /// Text content.
    Text(EventMetrics, CData),
}

/// Spec-level view of a [`RawEvent`]: lengths and characters.
pub enum RawEventView {
    XMLDeclaration(usize, XMLVersion),
    ElementHeadOpen(usize, QNameView),
    Attribute(usize, QNameView, Seq<char>),
    ElementHeadClose(usize),
    ElementFoot(usize),
    Text(usize, Seq<char>),
}

impl View for RawEvent {
    type V = RawEventView;

    open spec fn view(&self) -> RawEventView {
        match self {
            RawEvent::XMLDeclaration(m, v) => RawEventView::XMLDeclaration(m.spec_len(), *v),
            RawEvent::ElementHeadOpen(m, q) => RawEventView::ElementHeadOpen(m.spec_len(), qname_view(*q)),
            RawEvent::Attribute(m, q, v) => RawEventView::Attribute(m.spec_len(), qname_view(*q), v@),
            RawEvent::ElementHeadClose(m) => RawEventView::ElementHeadClose(m.spec_len()),
            RawEvent::ElementFoot(m) => RawEventView::ElementFoot(m.spec_len()),
            RawEvent::Text(m, t) => RawEventView::Text(m.spec_len(), t@),
        }
    }
}

/// The metrics of a raw event.
pub open spec fn raw_event_metrics(ev: RawEvent) -> EventMetrics {
    match ev {
        RawEvent::XMLDeclaration(m, ..) => m,
        RawEvent::ElementHeadOpen(m, ..) => m,
        RawEvent::Attribute(m, ..) => m,
        RawEvent::ElementHeadClose(m) => m,
        RawEvent::ElementFoot(m) => m,
        RawEvent::Text(m, ..) => m,
    }
}

/// Copy a qualified name.
pub fn clone_qname(q: &RawQName) -> (r: RawQName)
    ensures qname_view(r) == qname_view(*q),
{
    let p = match &q.0 {
        Some(p) => Some(p.clone()),
        None => None,
    };
    (p, q.1.clone())
}

impl Clone for RawEvent {
    fn clone(&self) -> (r: Self)
        ensures r@ == self@,
    {
        match self {
            RawEvent::XMLDeclaration(m, v) => RawEvent::XMLDeclaration(*m, *v),
            RawEvent::ElementHeadOpen(m, q) => RawEvent::ElementHeadOpen(*m, clone_qname(q)),
            RawEvent::Attribute(m, q, v) => RawEvent::Attribute(*m, clone_qname(q), v.clone()),
            RawEvent::ElementHeadClose(m) => RawEvent::ElementHeadClose(*m),
            RawEvent::ElementFoot(m) => RawEvent::ElementFoot(*m),
            RawEvent::Text(m, t) => RawEvent::Text(*m, t.clone()),
        }
    }
}

impl RawEvent {
    /// Return the [`EventMetrics`] of the event.
    pub fn metrics(&self) -> (r: &EventMetrics)
        ensures *r == raw_event_metrics(*self),
    {
        match self {
            RawEvent::XMLDeclaration(m, ..) => m,
            RawEvent::ElementHeadOpen(m, ..) => m,
            RawEvent::Attribute(m, ..) => m,
            RawEvent::ElementHeadClose(m) => m,
            RawEvent::ElementFoot(m) => m,
            RawEvent::Text(m, ..) => m,
        }
    }
}

#[derive(Clone, Copy, PartialEq, Eq, Debug, Structural)]
enum DeclSt {
    VersionName,
    VersionEq,
    VersionValue,
    EncodingName,
    EncodingEq,
    EncodingValue,
    StandaloneName,
    StandaloneEq,
    StandaloneValue,
    Close,
}

#[derive(Clone, Copy, PartialEq, Eq, Debug, Structural)]
enum ElementSt {
    /// An element opener is expected, nothing has been done yet.
    Expected,
    AttrName,
    AttrEq,
    AttrValue,
}

#[derive(Clone, Copy, PartialEq, Eq, Debug, Structural)]
enum DocSt {
    Element(ElementSt),
    CData,
    ElementFoot,
}

#[derive(Clone, Copy, PartialEq, Eq, Debug, Structural)]
enum State {
    Initial,
    Decl { substate: DeclSt, version: Option<XMLVersion> },
    Document(DocSt),
    End,
    Eof,
}

/// The characters are all XML whitespace (space, tab, line feed, carriage
/// return).
pub open spec fn all_xml_whitespace(s: Seq<char>) -> bool {
    forall|i: int| 0 <= i < s.len() ==> is_xml_whitespace(#[trigger] s[i])
}

/// `c` is XML whitespace (space, tab, line feed, carriage return).
pub open spec fn is_xml_whitespace(c: char) -> bool {
    c == ' ' || c == '\t' || c == '\n' || c == '\r'
}

fn is_all_xml_whitespace(s: &str) -> (r: bool)
    ensures r == all_xml_whitespace(s@),
{
    let cs = collect_chars(s);
    let mut i: usize = 0;
    while i < cs.len()
        invariant
            cs@ == s@,
            i <= cs.len(),
            forall|j: int| 0 <= j < i ==> is_xml_whitespace(#[trigger] s@[j]),
        decreases cs.len() - i,
    {
        let c = cs[i];
        if !(c == ' ' || c == '\t' || c == '\n' || c == '\r') {
            assert(!is_xml_whitespace(s@[i as int]));
            return false;
        }
        i = i + 1;
    }
    true
}

/// The error for a token which the grammar does not allow here.
pub open spec fn unexpected(ctx: &'static str, tok: &'static str, alt: Option<&'static [&'static str]>) -> Error {
    Error::NotWellFormed(XmlError::UnexpectedToken(ctx, tok, alt))
}

/// The outcome of splitting an element or attribute name, with the error
/// context attached.
pub open spec fn split_in_context(name: Seq<char>, ctx: &'static str) -> Result<QNameView> {
    match split_name_spec(name) {
        Ok(q) => Ok(q),
        Err(e) => Err(Error::NotNamespaceWellFormed(xml_error_with_context(e, ctx))),
    }
}

/// The namespace error of an attribute `q` with value `v`, if any.
pub open spec fn attribute_error(q: QNameView, v: Seq<char>) -> Option<Error> {
    if q.0 == Some("xmlns"@) {
        if q.1 == "xml"@ && v != XMLNS_XML@ {
            Some(Error::NotNamespaceWellFormed(XmlError::ReservedNamespacePrefix))
        } else if q.1 != "xml"@ && v == XMLNS_XML@ {
            Some(Error::NotNamespaceWellFormed(XmlError::ReservedNamespaceName))
        } else if v.len() == 0 {
            Some(Error::NotNamespaceWellFormed(XmlError::EmptyNamespaceUri))
        } else {
            None
        }
    } else {
        None
    }
}

/// What one token does to the parser, as a spec value.
struct Step {
    err: Option<Error>,
    state: State,
    stack: Seq<Seq<char>>,
    scratch: Option<QNameView>,
    last_end: Option<usize>,
    length: usize,
    events: Seq<RawEventView>,
}

/// The low-level, logical restricted XML 1.0 parser.
#[derive(Debug)]
///
/// It converts [`Token`]s into [`RawEvent`]s. After the first error which
/// is not an I/O error, it is poisoned and returns that error forever.
pub struct RawParser {
    state: State,
    element_stack: Vec<Name>,
    attribute_scratchpad: Option<RawQName>,
    /// End position of the last token processed in the event.
    event_last_token_end: Option<usize>,
    /// Current length of the event.
    event_length: usize,
    /// Events which will be returned from the current and later calls to
    /// `parse()`; one token may produce several events.
    eventq: VecDeque<RawEvent>,
    err: Option<Error>,
}

/// The raw parser does not see more than this many tokens in one call of
/// [`RawParser::parse`] without emitting an event; a source which delivers
/// more of them gets an error.
pub const MAX_TOKENS_PER_EVENT: u64 = 0xffff_ffff_ffff_ffff;

impl RawParser {
    /// The error which poisons the parser, if any.
    pub closed spec fn poison(&self) -> Option<Error> {
        self.err
    }

    /// The events which are queued for the next calls of `parse()`.
    pub closed spec fn queue(&self) -> Seq<RawEventView> {
        self.eventq@.map_values(|e: RawEvent| e@)
    }

    /// The names of the open elements, outermost first.
    pub closed spec fn stack(&self) -> Seq<Seq<char>> {
        self.element_stack@.map_values(|n: Name| n@)
    }

    /// Whether a valid end of the document has been reached.
    pub closed spec fn finished(&self) -> bool {
        self.state is Eof
    }

    /// Whether `other` holds the same state, open elements, pending
    /// attribute, event bookkeeping, queued events and error as this
    /// parser; only the capacity of the buffers may differ.
    pub closed spec fn same_content(&self, other: &RawParser) -> bool {
        &&& other.state == self.state
        &&& other.element_stack@ == self.element_stack@
        &&& other.attribute_scratchpad == self.attribute_scratchpad
        &&& other.event_last_token_end == self.event_last_token_end
        &&& other.event_length == self.event_length
        &&& other.eventq@ == self.eventq@
        &&& other.err == self.err
    }

    /// Whether no token has been processed yet.
    pub closed spec fn at_start(&self) -> bool {
        self.state is Initial && self.element_stack@.len() == 0
            && self.event_last_token_end is None && self.event_length == 0
    }

    /// The internal consistency of the parser.
    pub closed spec fn wf(&self) -> bool {
        self.err is None ==> self.consistent()
    }

    /// How the parts of a parser which is not poisoned fit together.
    closed spec fn consistent(&self) -> bool {
        &&& (self.state matches State::Document(d) ==> (d != DocSt::Element(ElementSt::Expected)
            <==> self.element_stack@.len() > 0))
        &&& (self.state matches State::Document(DocSt::Element(s)) ==> (s == ElementSt::AttrEq
            || s == ElementSt::AttrValue) ==> self.attribute_scratchpad is Some)
        &&& (self.state matches State::Document(DocSt::Element(s)) ==> s != ElementSt::Expected
            ==> self.event_last_token_end is Some)
        &&& (self.state matches State::Decl { substate, version } ==> (substate
            != DeclSt::VersionName && substate != DeclSt::VersionEq && substate
            != DeclSt::VersionValue) ==> version is Some)
        &&& (self.state matches State::Decl { .. } ==> self.event_last_token_end is Some)
        &&& (self.state matches State::Document(DocSt::ElementFoot) ==> self.event_last_token_end is Some)
        &&& (self.state is Initial || self.state is Decl) ==> self.element_stack@.len() == 0
    }

    /// The event bookkeeping after `tok` has been accounted to the current
    /// event (if one is open).
    closed spec fn account_spec(&self, tok: Option<Token>) -> Result<(Option<usize>, usize)> {
        match (self.event_last_token_end, tok) {
            (Some(last), Some(t)) => {
                let m = token_metrics_spec(t);
                let gap: int = if m.spec_start() >= last { m.spec_start() - last } else { 0 };
                let tl: int = vstd::wrapping::usize_specs::wrapping_sub(m.spec_end(), m.spec_start()) as int;
                if self.event_length + tl + gap > usize::MAX {
                    Err(Error::RestrictedXml("event too long"))
                } else {
                    Ok((Some(m.spec_end()), (self.event_length + tl + gap) as usize))
                }
            },
            _ => Ok((self.event_last_token_end, self.event_length)),
        }
    }

    /// Open a new element with the name `name`, after its start token `tm`.
    closed spec fn open_element_spec(&self, tm: TokenMetrics, name: Seq<char>) -> Step {
        let stack = self.stack().push(name);
        match split_in_context(name, ERRCTX_ELEMENT) {
            Err(e) => Step { err: Some(e), state: self.state, stack, scratch: None, last_end: None, length: 0, events: seq![] },
            Ok(q) => Step {
                err: None,
                state: State::Document(DocSt::Element(ElementSt::AttrName)),
                stack,
                scratch: self.scratch_view(),
                last_end: Some(tm.spec_end()),
                length: 0,
                events: seq![RawEventView::ElementHeadOpen(
                    vstd::wrapping::usize_specs::wrapping_sub(tm.spec_end(), tm.spec_start()), q)],
            },
        }
    }

    /// A step which fails with `e`.
    closed spec fn fail(&self, e: Error) -> Step {
        Step { err: Some(e), state: self.state, stack: self.stack(), scratch: None, last_end: None, length: 0, events: seq![] }
    }

    /// A step to `st` without events, keeping the bookkeeping `(last, len)`.
    closed spec fn goto(&self, st: State, last: Option<usize>, len: usize) -> Step {
        Step { err: None, state: st, stack: self.stack(), scratch: self.scratch_view(), last_end: last, length: len, events: seq![] }
    }

    /// The characters of the attribute name being processed.
    closed spec fn scratch_view(&self) -> Option<QNameView> {
        match self.attribute_scratchpad {
            Some(q) => Some(qname_view(q)),
            None => None,
        }
    }

    /// The state after an element has been closed.
    closed spec fn after_pop(stack: Seq<Seq<char>>) -> State {
        if stack.len() <= 1 { State::End } else { State::Document(DocSt::CData) }
    }

    /// What the parser does with `tok`, given the bookkeeping `(last, len)`
    /// after accounting the token.
    closed spec fn step_spec(&self, tok: Option<Token>, last: Option<usize>, len: usize) -> Step {
        match self.state {
            State::Initial => match tok {
                Some(Token::XMLDeclStart(tm)) => self.goto(
                    State::Decl { substate: DeclSt::VersionName, version: None },
                    Some(tm.spec_end()),
                    vstd::wrapping::usize_specs::wrapping_sub(tm.spec_end(), tm.spec_start())),
                Some(Token::ElementHeadStart(tm, name)) => self.open_element_spec(tm, name@),
                Some(t) => self.fail(unexpected(ERRCTX_DOCBEGIN, token_name_spec(t),
                    Some(&[NAME_ELEMENTHEADSTART, NAME_XMLDECLSTART]))),
                None => self.fail(Error::NotWellFormed(XmlError::InvalidEof(ERRCTX_DOCBEGIN))),
            },
            State::Decl { substate, version } => match tok {
                None => self.fail(Error::NotWellFormed(XmlError::InvalidEof(ERRCTX_XML_DECL))),
                Some(Token::Name(_, name)) => match substate {
                    DeclSt::VersionName => if name@ == "version"@ {
                        self.goto(State::Decl { substate: DeclSt::VersionEq, version }, last, len)
                    } else {
                        self.fail(Error::NotWellFormed(XmlError::InvalidSyntax(
                            "'<?xml' must be followed by version attribute")))
                    },
                    DeclSt::EncodingName => if name@ == "encoding"@ {
                        self.goto(State::Decl { substate: DeclSt::EncodingEq, version }, last, len)
                    } else if name@ == "standalone"@ {
                        self.goto(State::Decl { substate: DeclSt::StandaloneEq, version }, last, len)
                    } else {
                        self.fail(Error::NotWellFormed(XmlError::InvalidSyntax(
                            "'version' attribute must be followed by '?>' or 'encoding' attribute")))
                    },
                    DeclSt::StandaloneName => if name@ == "standalone"@ {
                        self.goto(State::Decl { substate: DeclSt::StandaloneEq, version }, last, len)
                    } else {
                        self.fail(Error::NotWellFormed(XmlError::InvalidSyntax(
                            "'encoding' attribute must be followed by '?>' or 'standalone' attribute")))
                    },
                    _ => self.fail(unexpected(ERRCTX_XML_DECL, NAME_NAME, None)),
                },
                Some(Token::Eq(_)) => match substate {
                    DeclSt::VersionEq => self.goto(State::Decl { substate: DeclSt::VersionValue, version }, last, len),
                    DeclSt::EncodingEq => self.goto(State::Decl { substate: DeclSt::EncodingValue, version }, last, len),
                    DeclSt::StandaloneEq => self.goto(State::Decl { substate: DeclSt::StandaloneValue, version }, last, len),
                    _ => self.fail(unexpected(ERRCTX_XML_DECL, NAME_EQ, None)),
                },
                Some(Token::AttributeValue(_, v)) => match substate {
                    DeclSt::VersionValue => if v@ == "1.0"@ {
                        self.goto(State::Decl { substate: DeclSt::EncodingName, version: Some(XMLVersion::V1_0) }, last, len)
                    } else {
                        self.fail(Error::RestrictedXml("only XML version 1.0 is allowed"))
                    },
                    DeclSt::EncodingValue => if ascii_ci_eq_spec(v@, "utf-8"@) {
                        self.goto(State::Decl { substate: DeclSt::StandaloneName, version }, last, len)
                    } else {
                        self.fail(Error::RestrictedXml("only utf-8 encoding is allowed"))
                    },
                    DeclSt::StandaloneValue => if ascii_ci_eq_spec(v@, "yes"@) {
                        self.goto(State::Decl { substate: DeclSt::Close, version }, last, len)
                    } else {
                        self.fail(Error::RestrictedXml("only standalone documents are allowed"))
                    },
                    _ => self.fail(unexpected(ERRCTX_XML_DECL, NAME_ATTRIBUTEVALUE, None)),
                },
                Some(Token::XMLDeclEnd(_)) => match substate {
                    DeclSt::EncodingName | DeclSt::StandaloneName | DeclSt::Close => Step {
                        err: None,
                        state: State::Document(DocSt::Element(ElementSt::Expected)),
                        stack: self.stack(),
                        scratch: self.scratch_view(),
                        last_end: None,
                        length: 0,
                        events: seq![RawEventView::XMLDeclaration(len, version.unwrap())],
                    },
                    _ => self.fail(unexpected(ERRCTX_XML_DECL, NAME_XMLDECLEND, None)),
                },
                Some(t) => self.fail(unexpected(ERRCTX_XML_DECL, token_name_spec(t), None)),
            },
            State::Document(DocSt::Element(es)) => match tok {
                None => if es == ElementSt::Expected {
                    self.fail(Error::NotWellFormed(XmlError::InvalidEof(ERRCTX_DOCBEGIN)))
                } else {
                    self.fail(Error::NotWellFormed(XmlError::InvalidEof(ERRCTX_ELEMENT)))
                },
                Some(Token::ElementHeadStart(tm, name)) if es == ElementSt::Expected => self.open_element_spec(tm, name@),
                Some(Token::XMLDeclStart(_)) if es == ElementSt::Expected => self.fail(
                    Error::RestrictedXml("processing instructions are not allowed")),
                Some(Token::ElementHFEnd(_)) => if es == ElementSt::AttrName {
                    Step {
                        err: None,
                        state: State::Document(DocSt::CData),
                        stack: self.stack(),
                        scratch: self.scratch_view(),
                        last_end: None,
                        length: 0,
                        events: seq![RawEventView::ElementHeadClose(len)],
                    }
                } else {
                    self.fail(unexpected(ERRCTX_ELEMENT, NAME_ELEMENTHEADCLOSE, None))
                },
                Some(Token::ElementHeadClose(_)) => if es == ElementSt::AttrName {
                    Step {
                        err: None,
                        state: Self::after_pop(self.stack()),
                        stack: self.stack().drop_last(),
                        scratch: self.scratch_view(),
                        last_end: None,
                        length: 0,
                        events: seq![RawEventView::ElementHeadClose(len), RawEventView::ElementFoot(0)],
                    }
                } else {
                    self.fail(unexpected(ERRCTX_ELEMENT, NAME_ELEMENTHEADCLOSE, None))
                },
                Some(Token::Name(_, name)) => if es == ElementSt::AttrName {
                    match split_in_context(name@, ERRCTX_ATTNAME) {
                        Err(e) => self.fail(e),
                        Ok(q) => if q.0 == Some("xmlns"@) && q.1 == "xmlns"@ {
                            self.fail(Error::NotNamespaceWellFormed(XmlError::ReservedNamespacePrefix))
                        } else {
                            Step {
                                err: None,
                                state: State::Document(DocSt::Element(ElementSt::AttrEq)),
                                stack: self.stack(),
                                scratch: Some(q),
                                last_end: last,
                                length: len,
                                events: seq![],
                            }
                        },
                    }
                } else {
                    self.fail(unexpected(ERRCTX_ELEMENT, NAME_NAME, None))
                },
                Some(Token::Eq(_)) => if es == ElementSt::AttrEq {
                    self.goto(State::Document(DocSt::Element(ElementSt::AttrValue)), last, len)
                } else {
                    self.fail(unexpected(ERRCTX_ELEMENT, NAME_EQ, None))
                },
                Some(Token::AttributeValue(tm, v)) => if es == ElementSt::AttrValue {
                    let q = self.scratch_view().unwrap();
                    match attribute_error(q, v@) {
                        Some(e) => self.fail(e),
                        None => Step {
                            err: None,
                            state: State::Document(DocSt::Element(ElementSt::AttrName)),
                            stack: self.stack(),
                            scratch: None,
                            last_end: Some(tm.spec_end()),
                            length: 0,
                            events: seq![RawEventView::Attribute(len, q, v@)],
                        },
                    }
                } else {
                    self.fail(unexpected(ERRCTX_ELEMENT, NAME_EQ, None))
                },
                Some(t) => self.fail(unexpected(ERRCTX_ELEMENT, token_name_spec(t), None)),
            },
            State::Document(DocSt::CData) => match tok {
                Some(Token::Text(tm, s)) => Step {
                    err: None,
                    state: State::Document(DocSt::CData),
                    stack: self.stack(),
                    scratch: self.scratch_view(),
                    last_end: None,
                    length: 0,
                    events: seq![RawEventView::Text(
                        vstd::wrapping::usize_specs::wrapping_sub(tm.spec_end(), tm.spec_start()), s@)],
                },
                Some(Token::ElementHeadStart(tm, name)) => self.open_element_spec(tm, name@),
                Some(Token::XMLDeclStart(_)) => self.fail(
                    Error::RestrictedXml("processing instructions are not allowed")),
                Some(Token::ElementFootStart(tm, name)) => if self.stack().last() != name@ {
                    self.fail(Error::NotWellFormed(XmlError::ElementMismatch))
                } else {
                    self.goto(State::Document(DocSt::ElementFoot), Some(tm.spec_end()),
                        vstd::wrapping::usize_specs::wrapping_sub(tm.spec_end(), tm.spec_start()))
                },
                Some(t) => self.fail(unexpected(ERRCTX_TEXT, token_name_spec(t),
                    Some(&[NAME_TEXT, NAME_ELEMENTHEADSTART, NAME_ELEMENTFOOTSTART]))),
                None => self.fail(Error::NotWellFormed(XmlError::InvalidEof(ERRCTX_TEXT))),
            },
            State::Document(DocSt::ElementFoot) => match tok {
                Some(Token::ElementHFEnd(_)) => Step {
                    err: None,
                    state: Self::after_pop(self.stack()),
                    stack: self.stack().drop_last(),
                    scratch: self.scratch_view(),
                    last_end: None,
                    length: 0,
                    events: seq![RawEventView::ElementFoot(len)],
                },
                Some(t) => self.fail(unexpected(ERRCTX_ELEMENT_FOOT, token_name_spec(t), Some(&[NAME_ELEMENTHFEND]))),
                None => self.fail(Error::NotWellFormed(XmlError::InvalidEof(ERRCTX_ELEMENT_FOOT))),
            },
            State::End => match tok {
                None => self.goto(State::Eof, last, len),
                Some(Token::Text(_, s)) if all_xml_whitespace(s@) => self.goto(State::End, last, len),
                Some(t) => self.fail(unexpected(ERRCTX_DOCEND, token_name_spec(t), Some(&["end-of-file"]))),
            },
            State::Eof => self.goto(State::Eof, last, len),
        }
    }

    /// What feeding `tok` does to the parser.
    closed spec fn feed_spec(&self, tok: Option<Token>) -> Step {
        match self.account_spec(tok) {
            Err(e) => self.fail(e),
            Ok((last, len)) => self.step_spec(tok, last, len),
        }
    }

    /// `new` is this parser after it has processed `tok`, with result `res`:
    /// on an error the parser is poisoned with it and emits nothing; on
    /// success the state, open elements and queued events advance as the
    /// grammar of the document demands.
    pub closed spec fn processes(&self, tok: Option<Token>, new: RawParser, res: Result<()>) -> bool {
        let s = self.feed_spec(tok);
        match s.err {
            Some(e) => {
                &&& res == Err::<(), Error>(e)
                &&& new.err == Some(e)
                &&& new.queue() =~= self.queue()
            },
            None => {
                &&& res is Ok
                &&& new.err is None
                &&& new.state == s.state
                &&& new.stack() =~= s.stack
                &&& new.scratch_view() == s.scratch
                &&& new.event_last_token_end == s.last_end
                &&& new.event_length == s.length
                &&& new.queue() =~= self.queue() + s.events
            },
        }
    }
}

impl RawParser {
    /// `new` is this parser after it has processed the tokens `toks` one
    /// after the other, each successfully.
    pub open spec fn runs(&self, toks: Seq<Option<Token>>, new: RawParser) -> bool
        decreases toks.len(),
    {
        if toks.len() == 0 {
            new == *self
        } else {
            exists|mid: RawParser| self.runs(toks.drop_last(), mid) && #[trigger] mid.processes(toks.last(), new, Ok(()))
        }
    }

    /// `new` is this parser after the state-specific processing of `tok`
    /// (the token has already been accounted), with the next state `res`.
    closed spec fn steps(&self, tok: Option<Token>, new: RawParser, res: Result<State>) -> bool {
        let s = self.step_spec(tok, self.event_last_token_end, self.event_length);
        &&& new.state == self.state
        &&& new.err == self.err
        &&& match res {
            Ok(st) => {
                &&& s.err is None
                &&& st == s.state
                &&& new.stack() =~= s.stack
                &&& new.scratch_view() == s.scratch
                &&& new.event_last_token_end == s.last_end
                &&& new.event_length == s.length
                &&& new.queue() =~= self.queue() + s.events
            },
            Err(e) => s.err == Some(e) && new.queue() =~= self.queue(),
        }
    }

    /// Create a new parser.
    pub fn new() -> (r: Self)
        ensures
            r.wf(),
            r.at_start(),
            !r.finished(),
            r.poison() is None,
            r.queue() == Seq::<RawEventView>::empty(),
            r.stack() == Seq::<Seq<char>>::empty(),
    {
        let r = Self {
            state: State::Initial,
            element_stack: Vec::new(),
            attribute_scratchpad: None,
            event_last_token_end: None,
            event_length: 0,
            eventq: VecDeque::new(),
            err: None,
        };
        assert(r.queue() =~= Seq::<RawEventView>::empty());
        assert(r.stack() =~= Seq::<Seq<char>>::empty());
        r
    }

    fn start_event(&mut self, tm: &TokenMetrics)
        ensures
            final(self).event_last_token_end == Some(tm.spec_end()),
            final(self).event_length == vstd::wrapping::usize_specs::wrapping_sub(tm.spec_end(), tm.spec_start()),
            final(self).state == old(self).state,
            final(self).element_stack == old(self).element_stack,
            final(self).attribute_scratchpad == old(self).attribute_scratchpad,
            final(self).eventq == old(self).eventq,
            final(self).err == old(self).err,
    {
        self.event_last_token_end = Some(tm.end());
        self.event_length = tm.len();
    }

    fn finish_event(&mut self) -> (r: EventMetrics)
        ensures
            r.spec_len() == old(self).event_length,
            final(self).event_last_token_end is None,
            final(self).event_length == 0,
            final(self).state == old(self).state,
            final(self).element_stack == old(self).element_stack,
            final(self).attribute_scratchpad == old(self).attribute_scratchpad,
            final(self).eventq == old(self).eventq,
            final(self).err == old(self).err,
    {
        let len = self.event_length;
        self.event_last_token_end = None;
        self.event_length = 0;
        EventMetrics::new(len)
    }

    /// Account the token to the current event, if one is open.
    fn account_token(&mut self, tok: &Option<Token>) -> (res: Result<()>)
        ensures
            match old(self).account_spec(*tok) {
                Ok((last, len)) => res is Ok && final(self).event_last_token_end == last
                    && final(self).event_length == len,
                Err(e) => res == Err::<(), Error>(e),
            },
            final(self).state == old(self).state,
            final(self).element_stack == old(self).element_stack,
            final(self).attribute_scratchpad == old(self).attribute_scratchpad,
            final(self).eventq == old(self).eventq,
            final(self).err == old(self).err,
    {
        match (self.event_last_token_end, tok) {
            (Some(last_end), Some(t)) => {
                let tm = t.metrics();
                let gap = tm.start().saturating_sub(last_end);
                let sum = match tm.len().checked_add(gap) {
                    Some(v) => v,
                    None => return Err(Error::RestrictedXml("event too long")),
                };
                match self.event_length.checked_add(sum) {
                    Some(v) => {
                        self.event_length = v;
                        self.event_last_token_end = Some(tm.end());
                        Ok(())
                    },
                    None => Err(Error::RestrictedXml("event too long")),
                }
            },
            _ => Ok(()),
        }
    }

    fn emit_event(&mut self, ev: RawEvent)
        ensures
            final(self).queue() == old(self).queue().push(ev@),
            final(self).state == old(self).state,
            final(self).element_stack == old(self).element_stack,
            final(self).attribute_scratchpad == old(self).attribute_scratchpad,
            final(self).event_last_token_end == old(self).event_last_token_end,
            final(self).event_length == old(self).event_length,
            final(self).err == old(self).err,
    {
        let ghost e = ev;
        self.eventq.push_back(ev);
        assert(self.eventq@.map_values(|x: RawEvent| x@) =~= old(self).eventq@.map_values(|x: RawEvent| x@).push(e@));
    }

    /// Open an element named `name` whose start token has the metrics `tm`.
    fn open_element(&mut self, tm: &TokenMetrics, name: Name) -> (res: Result<State>)
        ensures
            ({
                let s = old(self).open_element_spec(*tm, name@);
                &&& final(self).state == old(self).state
                &&& final(self).err == old(self).err
                &&& match res {
                    Ok(st) => s.err is None && st == s.state && final(self).stack() == s.stack
                        && final(self).scratch_view() == old(self).scratch_view()
                        && final(self).event_last_token_end == s.last_end
                        && final(self).event_length == s.length
                        && final(self).queue() == old(self).queue() + s.events,
                    Err(e) => s.err == Some(e) && final(self).queue() == old(self).queue(),
                }
            }),
    {
        let ghost nv = name@;
        self.start_event(tm);
        self.element_stack.push(name.clone());
        assert(self.stack() =~= old(self).stack().push(nv));
        let (prefix, localname) = match name.split_name() {
            Ok(q) => q,
            Err(e) => return Err(Error::NotNamespaceWellFormed(e.with_context(ERRCTX_ELEMENT))),
        };
        let em = self.finish_event();
        self.emit_event(RawEvent::ElementHeadOpen(em, (prefix, localname)));
        self.start_event(tm);
        self.event_length = 0;
        assert(self.queue() =~= old(self).queue() + old(self).open_element_spec(*tm, nv).events);
        Ok(State::Document(DocSt::Element(ElementSt::AttrName)))
    }

    /// Pop an element off the stack and emit its foot with the metrics `em`.
    fn pop_element(&mut self, em: EventMetrics) -> (r: State)
        requires old(self).element_stack@.len() > 0,
        ensures
            r == Self::after_pop(old(self).stack()),
            final(self).stack() == old(self).stack().drop_last(),
            final(self).queue() == old(self).queue().push(RawEventView::ElementFoot(em.spec_len())),
            final(self).state == old(self).state,
            final(self).attribute_scratchpad == old(self).attribute_scratchpad,
            final(self).event_last_token_end == old(self).event_last_token_end,
            final(self).event_length == old(self).event_length,
            final(self).err == old(self).err,
    {
        self.emit_event(RawEvent::ElementFoot(em));
        self.element_stack.pop();
        assert(self.stack() =~= old(self).stack().drop_last());
        if self.element_stack.len() == 0 {
            State::End
        } else {
            State::Document(DocSt::CData)
        }
    }

    /// Initial parser state.
    fn parse_initial(&mut self, tok: Option<Token>) -> (res: Result<State>)
        requires old(self).state is Initial, old(self).consistent(),
        ensures old(self).steps(tok, *final(self), res),
    {
        match tok {
            Some(Token::XMLDeclStart(tm)) => {
                self.start_event(&tm);
                Ok(State::Decl { substate: DeclSt::VersionName, version: None })
            },
            Some(Token::ElementHeadStart(tm, name)) => self.open_element(&tm, name),
            Some(t) => Err(Error::NotWellFormed(XmlError::UnexpectedToken(
                ERRCTX_DOCBEGIN,
                t.name(),
                Some(&[NAME_ELEMENTHEADSTART, NAME_XMLDECLSTART]),
            ))),
            None => Err(Error::wfeof(ERRCTX_DOCBEGIN)),
        }
    }

    /// XML declaration state.
    fn parse_decl(&mut self, state: DeclSt, version: Option<XMLVersion>, tok: Option<Token>) -> (res: Result<State>)
        requires
            old(self).state == (State::Decl { substate: state, version }),
            old(self).consistent(),
        ensures old(self).steps(tok, *final(self), res),
    {
        match tok {
            None => Err(Error::wfeof(ERRCTX_XML_DECL)),
            Some(Token::Name(_, name)) => match state {
                DeclSt::VersionName => {
                    if name == "version" {
                        Ok(State::Decl { substate: DeclSt::VersionEq, version: version })
                    } else {
                        Err(Error::NotWellFormed(XmlError::InvalidSyntax(
                            "'<?xml' must be followed by version attribute",
                        )))
                    }
                },
                DeclSt::EncodingName => {
                    if name == "encoding" {
                        Ok(State::Decl { substate: DeclSt::EncodingEq, version: version })
                    } else if name == "standalone" {
                        Ok(State::Decl { substate: DeclSt::StandaloneEq, version: version })
                    } else {
                        Err(Error::NotWellFormed(XmlError::InvalidSyntax(
                            "'version' attribute must be followed by '?>' or 'encoding' attribute",
                        )))
                    }
                },
                DeclSt::StandaloneName => {
                    if name == "standalone" {
                        Ok(State::Decl { substate: DeclSt::StandaloneEq, version: version })
                    } else {
                        Err(Error::NotWellFormed(XmlError::InvalidSyntax(
                            "'encoding' attribute must be followed by '?>' or 'standalone' attribute",
                        )))
                    }
                },
                _ => Err(Error::NotWellFormed(XmlError::UnexpectedToken(ERRCTX_XML_DECL, NAME_NAME, None))),
            },
            Some(Token::Eq(_)) => match state {
                DeclSt::VersionEq => Ok(State::Decl { substate: DeclSt::VersionValue, version: version }),
                DeclSt::EncodingEq => Ok(State::Decl { substate: DeclSt::EncodingValue, version: version }),
                DeclSt::StandaloneEq => Ok(State::Decl { substate: DeclSt::StandaloneValue, version: version }),
                _ => Err(Error::NotWellFormed(XmlError::UnexpectedToken(ERRCTX_XML_DECL, NAME_EQ, None))),
            },
            Some(Token::AttributeValue(_, v)) => match state {
                DeclSt::VersionValue => {
                    if v == "1.0" {
                        Ok(State::Decl { substate: DeclSt::EncodingName, version: Some(XMLVersion::V1_0) })
                    } else {
                        Err(Error::RestrictedXml("only XML version 1.0 is allowed"))
                    }
                },
                DeclSt::EncodingValue => {
                    if eq_ignore_ascii_case(v.as_str(), "utf-8") {
                        Ok(State::Decl { substate: DeclSt::StandaloneName, version: version })
                    } else {
                        Err(Error::RestrictedXml("only utf-8 encoding is allowed"))
                    }
                },
                DeclSt::StandaloneValue => {
                    if eq_ignore_ascii_case(v.as_str(), "yes") {
                        Ok(State::Decl { substate: DeclSt::Close, version: version })
                    } else {
                        Err(Error::RestrictedXml("only standalone documents are allowed"))
                    }
                },
                _ => Err(Error::NotWellFormed(XmlError::UnexpectedToken(
                    ERRCTX_XML_DECL,
                    NAME_ATTRIBUTEVALUE,
                    None,
                ))),
            },
            Some(Token::XMLDeclEnd(_)) => match state {
                DeclSt::EncodingName | DeclSt::StandaloneName | DeclSt::Close => {
                    let v = match version {
                        Some(v) => v,
                        None => XMLVersion::V1_0,
                    };
                    let em = self.finish_event();
                    self.emit_event(RawEvent::XMLDeclaration(em, v));
                    Ok(State::Document(DocSt::Element(ElementSt::Expected)))
                },
                _ => Err(Error::NotWellFormed(XmlError::UnexpectedToken(
                    ERRCTX_XML_DECL,
                    NAME_XMLDECLEND,
                    None,
                ))),
            },
            Some(other) => Err(Error::NotWellFormed(XmlError::UnexpectedToken(
                ERRCTX_XML_DECL,
                other.name(),
                None,
            ))),
        }
    }

    /// Finalize a single attribute with the value `val`; `tm` are the
    /// metrics of the value token.
    fn finalize_attribute(&mut self, tm: &TokenMetrics, val: CData) -> (res: Result<State>)
        requires
            old(self).state == State::Document(DocSt::Element(ElementSt::AttrValue)),
            old(self).attribute_scratchpad is Some,
        ensures
            ({
                let q = old(self).scratch_view().unwrap();
                &&& final(self).state == old(self).state
                &&& final(self).err == old(self).err
                &&& match attribute_error(q, val@) {
                    Some(e) => res == Err::<State, Error>(e) && final(self).queue() == old(self).queue(),
                    None => res == Ok::<State, Error>(State::Document(DocSt::Element(ElementSt::AttrName)))
                        && final(self).stack() == old(self).stack()
                        && final(self).scratch_view() is None
                        && final(self).event_last_token_end == Some(tm.spec_end())
                        && final(self).event_length == 0
                        && final(self).queue() == old(self).queue().push(
                            RawEventView::Attribute(old(self).event_length, q, val@)),
                }
            }),
    {
        let (prefix, localpart) = match self.attribute_scratchpad.take() {
            Some(q) => q,
            None => return Err(Error::RestrictedXml("attribute without name")),
        };
        let is_xmlns = match &prefix {
            Some(p) => *p == "xmlns",
            None => false,
        };
        if is_xmlns {
            if localpart == "xml" {
                if !(val == XMLNS_XML) {
                    return Err(Error::NotNamespaceWellFormed(XmlError::ReservedNamespacePrefix));
                }
            } else {
                if val == XMLNS_XML {
                    return Err(Error::NotNamespaceWellFormed(XmlError::ReservedNamespaceName));
                }
            }
            if val.as_str().unicode_len() == 0 {
                return Err(Error::NotNamespaceWellFormed(XmlError::EmptyNamespaceUri));
            }
        }
        let em = self.finish_event();
        self.emit_event(RawEvent::Attribute(em, (prefix, localpart), val));
        self.start_event(tm);
        self.event_length = 0;
        Ok(State::Document(DocSt::Element(ElementSt::AttrName)))
    }

    /// Element header state.
    fn parse_element(&mut self, state: ElementSt, tok: Option<Token>) -> (res: Result<State>)
        requires
            old(self).state == State::Document(DocSt::Element(state)),
            old(self).consistent(),
        ensures old(self).steps(tok, *final(self), res),
    {
        match tok {
            None => match state {
                ElementSt::Expected => Err(Error::wfeof(ERRCTX_DOCBEGIN)),
                _ => Err(Error::wfeof(ERRCTX_ELEMENT)),
            },
            Some(Token::ElementHeadStart(tm, name)) if state == ElementSt::Expected => {
                self.open_element(&tm, name)
            },
            Some(Token::XMLDeclStart(_)) if state == ElementSt::Expected => {
                Err(Error::RestrictedXml("processing instructions are not allowed"))
            },
            Some(Token::ElementHFEnd(_)) => match state {
                ElementSt::AttrName => {
                    let em = self.finish_event();
                    self.emit_event(RawEvent::ElementHeadClose(em));
                    Ok(State::Document(DocSt::CData))
                },
                _ => Err(Error::NotWellFormed(XmlError::UnexpectedToken(
                    ERRCTX_ELEMENT,
                    NAME_ELEMENTHEADCLOSE,
                    None,
                ))),
            },
            Some(Token::ElementHeadClose(_)) => match state {
                ElementSt::AttrName => {
                    let em = self.finish_event();
                    self.emit_event(RawEvent::ElementHeadClose(em));
                    let st = self.pop_element(EventMetrics::new(0));
                    assert(self.queue() =~= old(self).queue() + seq![
                        RawEventView::ElementHeadClose(old(self).event_length),
                        RawEventView::ElementFoot(0),
                    ]);
                    Ok(st)
                },
                _ => Err(Error::NotWellFormed(XmlError::UnexpectedToken(
                    ERRCTX_ELEMENT,
                    NAME_ELEMENTHEADCLOSE,
                    None,
                ))),
            },
            Some(Token::Name(_, name)) => match state {
                ElementSt::AttrName => {
                    let (prefix, localname) = match name.split_name() {
                        Ok(q) => q,
                        Err(e) => return Err(Error::NotNamespaceWellFormed(e.with_context(ERRCTX_ATTNAME))),
                    };
                    let reserved = match &prefix {
                        Some(p) => *p == "xmlns" && localname == "xmlns",
                        None => false,
                    };
                    if reserved {
                        return Err(Error::NotNamespaceWellFormed(XmlError::ReservedNamespacePrefix));
                    }
                    self.attribute_scratchpad = Some((prefix, localname));
                    Ok(State::Document(DocSt::Element(ElementSt::AttrEq)))
                },
                _ => Err(Error::NotWellFormed(XmlError::UnexpectedToken(ERRCTX_ELEMENT, NAME_NAME, None))),
            },
            Some(Token::Eq(_)) => match state {
                ElementSt::AttrEq => Ok(State::Document(DocSt::Element(ElementSt::AttrValue))),
                _ => Err(Error::NotWellFormed(XmlError::UnexpectedToken(ERRCTX_ELEMENT, NAME_EQ, None))),
            },
            Some(Token::AttributeValue(tm, val)) => match state {
                ElementSt::AttrValue => self.finalize_attribute(&tm, val),
                _ => Err(Error::NotWellFormed(XmlError::UnexpectedToken(ERRCTX_ELEMENT, NAME_EQ, None))),
            },
            Some(t) => Err(Error::NotWellFormed(XmlError::UnexpectedToken(ERRCTX_ELEMENT, t.name(), None))),
        }
    }

    /// Element content state.
    fn parse_content(&mut self, tok: Option<Token>) -> (res: Result<State>)
        requires
            old(self).state == State::Document(DocSt::CData),
            old(self).consistent(),
        ensures old(self).steps(tok, *final(self), res),
    {
        match tok {
            Some(Token::Text(tm, s)) => {
                self.start_event(&tm);
                let em = self.finish_event();
                self.emit_event(RawEvent::Text(em, s));
                Ok(State::Document(DocSt::CData))
            },
            Some(Token::ElementHeadStart(tm, name)) => self.open_element(&tm, name),
            Some(Token::XMLDeclStart(_)) => Err(Error::RestrictedXml("processing instructions are not allowed")),
            Some(Token::ElementFootStart(tm, name)) => {
                self.start_event(&tm);
                let n = self.element_stack.len();
                if !(self.element_stack[n - 1] == name) {
                    Err(Error::NotWellFormed(XmlError::ElementMismatch))
                } else {
                    Ok(State::Document(DocSt::ElementFoot))
                }
            },
            Some(t) => Err(Error::NotWellFormed(XmlError::UnexpectedToken(
                ERRCTX_TEXT,
                t.name(),
                Some(&[NAME_TEXT, NAME_ELEMENTHEADSTART, NAME_ELEMENTFOOTSTART]),
            ))),
            None => Err(Error::wfeof(ERRCTX_TEXT)),
        }
    }

    /// Element footer state.
    fn parse_foot(&mut self, tok: Option<Token>) -> (res: Result<State>)
        requires
            old(self).state == State::Document(DocSt::ElementFoot),
            old(self).consistent(),
        ensures old(self).steps(tok, *final(self), res),
    {
        match tok {
            Some(Token::ElementHFEnd(_)) => {
                let em = self.finish_event();
                let st = self.pop_element(em);
                Ok(st)
            },
            Some(other) => Err(Error::NotWellFormed(XmlError::UnexpectedToken(
                ERRCTX_ELEMENT_FOOT,
                other.name(),
                Some(&[NAME_ELEMENTHFEND]),
            ))),
            None => Err(Error::wfeof(ERRCTX_ELEMENT_FOOT)),
        }
    }

    /// After the root element.
    fn parse_end(&mut self, tok: Option<Token>) -> (res: Result<State>)
        requires old(self).state == State::End, old(self).consistent(),
        ensures old(self).steps(tok, *final(self), res),
    {
        match tok {
            None => Ok(State::Eof),
            Some(Token::Text(tm, s)) => {
                if is_all_xml_whitespace(s.as_str()) {
                    Ok(State::End)
                } else {
                    Err(Error::NotWellFormed(XmlError::UnexpectedToken(
                        ERRCTX_DOCEND,
                        NAME_TEXT,
                        Some(&["end-of-file"]),
                    )))
                }
            },
            Some(tok) => Err(Error::NotWellFormed(XmlError::UnexpectedToken(
                ERRCTX_DOCEND,
                tok.name(),
                Some(&["end-of-file"]),
            ))),
        }
    }

    /// Process one token (or the error) which a token source delivered.
    ///
    /// An I/O error is passed through and changes nothing. Any other error,
    /// whether delivered or detected, poisons the parser. On success the
    /// parser advances as [`RawParser::processes`] describes.
    pub fn process_token(&mut self, tok: Result<Option<Token>>) -> (res: Result<()>)
        requires
            old(self).wf(),
            old(self).poison() is None,
            !old(self).finished(),
        ensures
            final(self).wf(),
            match tok {
                Err(Error::IO(e)) => res == Err::<(), Error>(Error::IO(e)) && *final(self) == *old(self),
                Err(e) => res == Err::<(), Error>(e) && final(self).poison() == Some(e)
                    && final(self).queue() == old(self).queue(),
                Ok(t) => old(self).processes(t, *final(self), res),
            },
    {
        let tok = match tok {
            Err(Error::IO(e)) => return Err(Error::IO(e)),
            Err(e) => {
                self.err = Some(e.clone());
                return Err(e);
            },
            Ok(t) => t,
        };
        let ghost t0 = tok;
        match self.account_token(&tok) {
            Ok(()) => {},
            Err(e) => {
                self.err = Some(e.clone());
                return Err(e);
            },
        }
        let ghost accounted = *self;
        let result = match self.state {
            State::Initial => self.parse_initial(tok),
            State::Decl { substate, version } => self.parse_decl(substate, version, tok),
            State::Document(DocSt::Element(es)) => self.parse_element(es, tok),
            State::Document(DocSt::CData) => self.parse_content(tok),
            State::Document(DocSt::ElementFoot) => self.parse_foot(tok),
            State::End => self.parse_end(tok),
            State::Eof => Ok(State::Eof),
        };
        match result {
            Ok(st) => {
                self.state = st;
                Ok(())
            },
            Err(e) => {
                self.err = Some(e.clone());
                Err(e)
            },
        }
    }
}

impl std::default::Default for RawParser {
    fn default() -> (r: Self)
        ensures
            r.wf(),
            r.at_start(),
            r.poison() is None,
            r.queue() == Seq::<RawEventView>::empty(),
            r.stack() == Seq::<Seq<char>>::empty(),
    {
        RawParser::new()
    }
}

/// Releases unused capacity of a queue ([`VecDeque::shrink_to_fit`]); the
/// contents stay.
#[verifier::external_body]
fn vecdeque_shrink_to_fit<T>(v: &mut VecDeque<T>)
    ensures final(v)@ == old(v)@,
{
    v.shrink_to_fit()
}

impl Parse for RawParser {
    type Output = RawEvent;

    open spec fn parser_ok(&self) -> bool {
        self.wf()
    }

    open spec fn failure(&self) -> Option<Error> {
        self.poison()
    }

    /// A poisoned parser repeats its error and reads nothing; queued events
    /// are handed out first, without reading; otherwise the parser
    /// processes the tokens delivered ([`RawParser::runs`]) until an event
    /// is queued, the document ends, or an error occurs: an error of the
    /// source is passed on (an I/O error leaves the parser as it was, any
    /// other poisons it), as is an error which processing a token raises.
    open spec fn consumes(&self, got: Seq<Result<Option<Token>>>, new: RawParser, res: Result<Option<RawEvent>>) -> bool {
        match self.poison() {
            Some(e) => got.len() == 0 && new == *self && res == Err::<Option<RawEvent>, Error>(e),
            None => if self.queue().len() > 0 {
                &&& got.len() == 0
                &&& res matches Ok(Some(ev)) && ev@ == self.queue()[0]
                &&& new.queue() == self.queue().drop_first()
                &&& new.poison() is None
                &&& new.stack() == self.stack()
                &&& new.finished() == self.finished()
            } else {
                exists|toks: Seq<Option<Token>>, mid: RawParser| #[trigger] self.runs(toks, mid) && match res {
                    Ok(Some(ev)) => {
                        &&& got == delivered_tokens(toks)
                        &&& mid.queue().len() > 0 && ev@ == mid.queue()[0]
                        &&& new.queue() == mid.queue().drop_first()
                        &&& new.poison() == mid.poison()
                        &&& new.stack() == mid.stack()
                        &&& new.finished() == mid.finished()
                    },
                    Ok(None) => got == delivered_tokens(toks) && new == mid && new.finished(),
                    Err(Error::IO(w)) => got == delivered_tokens(toks).push(Err(Error::IO(w))) && new == mid,
                    Err(e) => {
                        ||| (got == delivered_tokens(toks).push(Err(e)) && new.poison() == Some(e)
                            && new.queue() == mid.queue())
                        ||| exists|t: Option<Token>| got == delivered_tokens(toks).push(Ok(t))
                            && #[trigger] mid.processes(t, new, Err(e))
                        ||| (got == delivered_tokens(toks) && toks.len() == MAX_TOKENS_PER_EVENT
                            && e == Error::RestrictedXml("too many tokens without an event") && new.poison() == Some(e))
                    },
                }
            },
        }
    }

    /// Parse a single event using tokens from `r`.
    ///
    /// Queued events are returned first, in the order in which they were
    /// produced. Once a poisoned parser has reported its error, it reports
    /// it forever without reading; I/O errors of the source are passed
    /// through without poisoning; every other error poisons the parser.
    fn parse<R: TokenRead>(&mut self, r: &mut R) -> (res: Result<Option<RawEvent>>)
        ensures
            old(self).poison() matches Some(e) ==> res == Err::<Option<RawEvent>, Error>(e)
                && *final(self) == *old(self) && *final(r) == *old(r),
            old(self).poison() is None && old(self).queue().len() > 0 ==> (res matches Ok(Some(ev))
                && ev@ == old(self).queue()[0] && final(self).queue() == old(self).queue().drop_first()
                && final(self).poison() is None),
            old(self).poison() is None && old(self).queue().len() == 0 && old(self).finished()
                ==> res matches Ok(None),
            old(self).poison() is None ==> match res {
                Ok(None) => final(self).finished() && final(self).poison() is None,
                Ok(Some(_)) => final(self).poison() is None,
                Err(Error::IO(_)) => final(self).poison() is None,
                Err(e) => final(self).poison() == Some(e),
            },
            old(self).poison() is None && old(self).queue().len() == 0 ==> match res {
                Ok(Some(ev)) => exists|toks: Seq<Option<Token>>, mid: RawParser|
                    #[trigger] old(self).runs(toks, mid) && mid.queue().len() > 0 && ev@ == mid.queue()[0]
                    && final(self).queue() == mid.queue().drop_first() && final(self).poison() == mid.poison()
                    && final(self).stack() == mid.stack() && final(self).finished() == mid.finished(),
                Ok(None) => exists|toks: Seq<Option<Token>>| #[trigger] old(self).runs(toks, *final(self)),
                _ => true,
            },
    {
        match &self.err {
            Some(e) => {
                let ee = e.clone();
                proof {
                    assert(old(r).delivered() + Seq::<Result<Option<Token>>>::empty() =~= old(r).delivered());
                    assert(old(self).consumes(Seq::empty(), *self, Err(ee)));
                }
                return Err(ee);
            },
            None => {},
        }
        let mut budget: u64 = MAX_TOKENS_PER_EVENT;
        let ghost mut toks: Seq<Option<Token>> = Seq::empty();
        proof {
            assert(old(self).runs(toks, *self));
            assert(old(r).delivered() + delivered_tokens(toks) =~= old(r).delivered());
        }
        loop
            invariant
                self.wf(),
                self.err is None,
                old(self).err is None,
                r.source_ok(),
                r.origin() == old(r).origin(),
                r.origin_lexer() == old(r).origin_lexer(),
                budget < MAX_TOKENS_PER_EVENT ==> old(self).queue().len() == 0 && !old(self).finished(),
                budget == MAX_TOKENS_PER_EVENT ==> *self == *old(self) && toks.len() == 0,
                old(self).queue().len() == 0 ==> old(self).runs(toks, *self),
                toks.len() + budget == MAX_TOKENS_PER_EVENT,
                old(r).keeps_log() ==> r.keeps_log() && r.delivered() == old(r).delivered() + delivered_tokens(toks),
            decreases budget,
        {
            let ghost before = self.eventq@;
            let ghost head = *self;
            if self.eventq.len() > 0 {
                match self.eventq.pop_front() {
                    Some(ev) => {
                        proof {
                            assert(self.eventq@ =~= before.subrange(1, before.len() as int));
                            assert(self.queue() =~= head.queue().drop_first());
                            assert(self.stack() == head.stack());
                            if budget == MAX_TOKENS_PER_EVENT {
                                assert(self.queue() =~= old(self).queue().drop_first());
                                assert(delivered_tokens(toks) =~= Seq::<Result<Option<Token>>>::empty());
                                if old(self).queue().len() > 0 {
                                    assert(old(self).consumes(delivered_tokens(toks), *self, Ok(Some(ev))));
                                }
                            }
                            if old(self).queue().len() == 0 {
                                assert(ev@ == head.queue()[0]);
                                assert(old(self).runs(toks, head));
                                assert(old(self).consumes(delivered_tokens(toks), *self, Ok(Some(ev))));
                            }
                        }
                        return Ok(Some(ev));
                    },
                    None => {
                        proof { assert(false); }
                    },
                }
            }
            match self.state {
                State::Eof => {
                    proof {
                        if old(self).queue().len() == 0 {
                            assert(old(self).runs(toks, *self));
                            assert(old(self).consumes(delivered_tokens(toks), *self, Ok(None)));
                        }
                    }
                    return Ok(None);
                },
                _ => {},
            }
            if budget == 0 {
                let e = Error::RestrictedXml("too many tokens without an event");
                self.err = Some(e.clone());
                proof {
                    assert(old(self).runs(toks, head));
                    assert(old(self).consumes(delivered_tokens(toks), *self, Err(e)));
                }
                return Err(e);
            }
            budget = budget - 1;
            let tok = r.read();
            let ghost gtok = tok;
            let ghost prev = *self;
            let ghost log_before = old(r).delivered() + delivered_tokens(toks);
            proof {
                if old(r).keeps_log() {
                    assert(r.delivered() == log_before.push(gtok));
                }
            }
            match self.process_token(tok) {
                Ok(()) => {},
                Err(e) => {
                    proof {
                        assert(old(self).runs(toks, prev));
                        match gtok {
                            Err(Error::IO(w)) => {
                                assert(log_before.push(gtok) =~= old(r).delivered() + delivered_tokens(toks).push(Err(Error::IO(w))));
                                assert(old(self).consumes(delivered_tokens(toks).push(Err(Error::IO(w))), *self, Err(e)));
                            },
                            Err(x) => {
                                assert(log_before.push(gtok) =~= old(r).delivered() + delivered_tokens(toks).push(Err(x)));
                                assert(old(self).consumes(delivered_tokens(toks).push(Err(x)), *self, Err(e)));
                            },
                            Ok(t) => {
                                assert(log_before.push(gtok) =~= old(r).delivered() + delivered_tokens(toks).push(Ok(t)));
                                assert(prev.processes(t, *self, Err(e)));
                                assert(old(self).consumes(delivered_tokens(toks).push(Ok(t)), *self, Err(e)));
                            },
                        }
                    }
                    return Err(e);
                },
            }
            proof {
                let t = gtok->Ok_0;
                let nt = toks.push(t);
                assert(nt.drop_last() =~= toks);
                assert(nt.last() == t);
                assert(prev.processes(t, *self, Ok(())));
                if old(self).queue().len() == 0 {
                    assert(old(self).runs(nt, *self));
                }
                assert(delivered_tokens(nt) =~= delivered_tokens(toks).push(Ok(t)));
                assert(log_before.push(gtok) =~= old(r).delivered() + delivered_tokens(nt));
                toks = nt;
            }
        }
    }

    /// Release all temporary buffers.
    fn release_temporaries(&mut self)
        ensures
            old(self).same_content(final(self)),
            final(self).poison() == old(self).poison(),
            final(self).queue() == old(self).queue(),
            final(self).stack() == old(self).stack(),
            final(self).finished() == old(self).finished(),
    {
        vecdeque_shrink_to_fit(&mut self.eventq);
        vec_shrink_to_fit(&mut self.element_stack);
    }
}

} // verus!
