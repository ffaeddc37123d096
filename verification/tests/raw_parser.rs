//! Tests of the raw parser.
use std::convert::TryInto;
use std::io;

use rxml::error::{Error, NWFError, Result, WFError, ERRCTX_DOCBEGIN};
use rxml::lexer::{Token, TokenMetrics};
use rxml::parser::{Parse, RawEvent, RawParser, TokenRead, XMLVersion, XMLNS_XML};


const TEST_NS: &'static str = "urn:uuid:4e1c8b65-ae37-49f8-a250-c27d52827da9";

fn dm() -> TokenMetrics {
	TokenMetrics::new(0, 0)
}

// XXX: this should be possible without a subtype *shrug*
struct TokenSliceReader<'x> {
	base: &'x [Token],
	offset: usize,
}

struct SometimesBlockingTokenSliceReader<'x> {
	base: &'x [Token],
	offset: usize,
	has_blocked: bool,
}

trait TokenSliceWrapper<'x> {
	fn new(src: &'x [Token]) -> Self;
}

impl<'x> TokenSliceWrapper<'x> for TokenSliceReader<'x> {
	fn new(src: &'x [Token]) -> TokenSliceReader<'x> {
		TokenSliceReader {
			base: src,
			offset: 0,
		}
	}
}

impl<'x> TokenSliceWrapper<'x> for SometimesBlockingTokenSliceReader<'x> {
	fn new(src: &'x [Token]) -> SometimesBlockingTokenSliceReader<'x> {
		SometimesBlockingTokenSliceReader {
			base: src,
			offset: 0,
			has_blocked: false,
		}
	}
}

impl<'x> TokenRead for TokenSliceReader<'x> {
	fn read(&mut self) -> Result<Option<Token>> {
		match self.base.get(self.offset) {
			Some(x) => {
				self.offset += 1;
				let result = x.clone();
				println!("returning token {:?}", result);
				Ok(Some(result))
			}
			None => Ok(None),
		}
	}
}

impl<'x> TokenRead for SometimesBlockingTokenSliceReader<'x> {
	fn read(&mut self) -> Result<Option<Token>> {
		if !self.has_blocked {
			self.has_blocked = true;
			return Err(Error::io(io::Error::new(
				io::ErrorKind::WouldBlock,
				"noise",
			)));
		}

		match self.base.get(self.offset) {
			Some(x) => {
				self.has_blocked = false;
				self.offset += 1;
				let result = x.clone();
				println!("returning token {:?}", result);
				Ok(Some(result))
			}
			None => Ok(None),
		}
	}
}

fn parse_custom<'t, T: TokenSliceWrapper<'t> + TokenRead>(
	src: &'t [Token],
) -> (Vec<RawEvent>, Result<()>) {
	let mut sink = Vec::new();
	let mut reader = T::new(src);
	let mut parser = RawParser::new();
	loop {
		match parser.parse(&mut reader) {
			Ok(Some(ev)) => sink.push(ev),
			Ok(None) => return (sink, Ok(())),
			Err(e) => return (sink, Err(e)),
		}
	}
}

fn parse(src: &[Token]) -> (Vec<RawEvent>, Result<()>) {
	parse_custom::<TokenSliceReader>(src)
}

fn parse_err(src: &[Token]) -> Option<Error> {
	let (_, r) = parse(src);
	r.err()
}

#[test]
fn parser_parse_xml_declaration() {
	let (evs, r) = parse(&[
		Token::XMLDeclStart(TokenMetrics::new(0, 1)),
		Token::Name(TokenMetrics::new(2, 3), "version".try_into().unwrap()),
		Token::Eq(TokenMetrics::new(3, 4)),
		Token::AttributeValue(TokenMetrics::new(4, 5), "1.0".try_into().unwrap()),
		Token::XMLDeclEnd(TokenMetrics::new(6, 7)),
	]);
	let mut iter = evs.iter();
	match iter.next().unwrap() {
		RawEvent::XMLDeclaration(em, XMLVersion::V1_0) => {
			assert_eq!(em.len(), 7);
		}
		other => panic!("unexpected event: {:?}", other),
	}
	assert!(iter.next().is_none());
	assert!(matches!(
		r.err().unwrap(),
		Error::NotWellFormed(WFError::InvalidEof(ERRCTX_DOCBEGIN))
	));
}

#[test]
fn parser_parse_wouldblock_as_first_token() {
	struct DegenerateTokenSource();

	impl TokenRead for DegenerateTokenSource {
		fn read(&mut self) -> Result<Option<Token>> {
			Err(Error::io(io::Error::new(
				io::ErrorKind::WouldBlock,
				"nevar!",
			)))
		}
	}

	let mut reader = DegenerateTokenSource();
	let mut parser = RawParser::new();
	let r = parser.parse(&mut reader);
	assert!(
		matches!(r.err().unwrap(), Error::IO(ioerr) if ioerr.kind() == io::ErrorKind::WouldBlock)
	);
}

#[test]
fn parser_recovers_from_wouldblock() {
	let toks = &[
		Token::XMLDeclStart(dm()),
		Token::Name(dm(), "version".try_into().unwrap()),
		Token::Eq(dm()),
		Token::AttributeValue(dm(), "1.0".try_into().unwrap()),
		Token::XMLDeclEnd(dm()),
	];
	let mut reader = SometimesBlockingTokenSliceReader::new(toks);
	let mut parser = RawParser::new();
	let mut evs = Vec::new();

	loop {
		match parser.parse(&mut reader) {
			Err(Error::IO(ioerr)) if ioerr.kind() == io::ErrorKind::WouldBlock => continue,
			Err(Error::NotWellFormed(WFError::InvalidEof(ERRCTX_DOCBEGIN))) => break,
			Err(other) => panic!("unexpected error: {:?}", other),
			Ok(Some(ev)) => evs.push(ev),
			Ok(None) => panic!("unexpected eof: {:?}", parser),
		}
	}
	assert!(matches!(
		&evs[0],
		RawEvent::XMLDeclaration(em, XMLVersion::V1_0) if em.len() == 0
	));
	assert_eq!(evs.len(), 1);
}

#[test]
fn parser_parse_stepwise() {
	let toks = &[
		Token::XMLDeclStart(dm()),
		Token::Name(dm(), "version".try_into().unwrap()),
		Token::Eq(dm()),
		Token::AttributeValue(dm(), "1.0".try_into().unwrap()),
		Token::XMLDeclEnd(dm()),
		Token::ElementHeadStart(dm(), "root".try_into().unwrap()),
	];
	let mut reader = TokenSliceReader::new(toks);
	let mut parser = RawParser::new();
	let r = parser.parse(&mut reader);
	assert!(matches!(
		r.unwrap().unwrap(),
		RawEvent::XMLDeclaration(em, XMLVersion::V1_0) if em.len() == 0
	));
}

#[test]
fn parser_parse_element_after_xml_declaration() {
	let (mut evs, r) = parse(&[
		Token::XMLDeclStart(dm()),
		Token::Name(dm(), "version".try_into().unwrap()),
		Token::Eq(dm()),
		Token::AttributeValue(dm(), "1.0".try_into().unwrap()),
		Token::XMLDeclEnd(dm()),
		Token::ElementHeadStart(dm(), "root".try_into().unwrap()),
		Token::ElementHeadClose(dm()),
	]);
	r.unwrap();
	match evs.remove(0) {
		RawEvent::XMLDeclaration(_, XMLVersion::V1_0) => (),
		other => panic!("unexpected event: {:?}", other),
	}
	match evs.remove(0) {
		RawEvent::ElementHeadOpen(em, (prefix, localname)) => {
			assert_eq!(em.len(), 0);
			assert!(prefix.is_none());
			assert_eq!(localname, "root");
		}
		other => panic!("unexpected event: {:?}", other),
	}
	match evs.remove(0) {
		RawEvent::ElementHeadClose(em) => {
			assert_eq!(em.len(), 0);
		}
		other => panic!("unexpected event: {:?}", other),
	}
	match evs.remove(0) {
		RawEvent::ElementFoot(em) => {
			assert_eq!(em.len(), 0);
		}
		other => panic!("unexpected event: {:?}", other),
	}
	match evs.iter().next() {
		None => (),
		other => panic!("unexpected event: {:?}", other),
	}
}

#[test]
fn parser_parse_element_without_decl() {
	let (mut evs, r) = parse(&[
		Token::ElementHeadStart(dm(), "root".try_into().unwrap()),
		Token::ElementHeadClose(dm()),
	]);
	r.unwrap();
	match evs.remove(0) {
		RawEvent::ElementHeadOpen(em, (prefix, localname)) => {
			assert_eq!(em.len(), 0);
			assert!(prefix.is_none());
			assert_eq!(localname, "root");
		}
		other => panic!("unexpected event: {:?}", other),
	}
	match evs.remove(0) {
		RawEvent::ElementHeadClose(em) => {
			assert_eq!(em.len(), 0);
		}
		other => panic!("unexpected event: {:?}", other),
	}
}

#[test]
fn parser_parse_element_with_attr() {
	let (mut evs, r) = parse(&[
		Token::ElementHeadStart(dm(), "root".try_into().unwrap()),
		Token::Name(dm(), "foo".try_into().unwrap()),
		Token::Eq(dm()),
		Token::AttributeValue(dm(), "bar".try_into().unwrap()),
		Token::ElementHeadClose(dm()),
	]);
	r.unwrap();
	match evs.remove(0) {
		RawEvent::ElementHeadOpen(em, (prefix, localname)) => {
			assert_eq!(em.len(), 0);
			assert!(prefix.is_none());
			assert_eq!(localname, "root");
		}
		ev => panic!("unexpected event: {:?}", ev),
	}
	match evs.remove(0) {
		RawEvent::Attribute(em, (prefix, localname), value) => {
			assert_eq!(em.len(), 0);
			assert!(prefix.is_none());
			assert_eq!(localname, "foo");
			assert_eq!(value, "bar");
		}
		ev => panic!("unexpected event: {:?}", ev),
	}
	match evs.remove(0) {
		RawEvent::ElementHeadClose(em) => {
			assert_eq!(em.len(), 0);
		}
		ev => panic!("unexpected event: {:?}", ev),
	}
}

#[test]
fn parser_parse_element_with_xmlns() {
	let (mut evs, r) = parse(&[
		Token::ElementHeadStart(dm(), "root".try_into().unwrap()),
		Token::Name(dm(), "xmlns".try_into().unwrap()),
		Token::Eq(dm()),
		Token::AttributeValue(dm(), TEST_NS.try_into().unwrap()),
		Token::ElementHeadClose(dm()),
	]);
	r.unwrap();
	match evs.remove(0) {
		RawEvent::ElementHeadOpen(em, (prefix, localname)) => {
			assert_eq!(em.len(), 0);
			assert!(prefix.is_none());
			assert_eq!(localname, "root");
		}
		ev => panic!("unexpected event: {:?}", ev),
	}
	match evs.remove(0) {
		RawEvent::Attribute(em, (prefix, localname), value) => {
			assert_eq!(em.len(), 0);
			assert!(prefix.is_none());
			assert_eq!(localname, "xmlns");
			assert_eq!(value, TEST_NS);
		}
		ev => panic!("unexpected event: {:?}", ev),
	}
	match evs.remove(0) {
		RawEvent::ElementHeadClose(em) => {
			assert_eq!(em.len(), 0);
		}
		ev => panic!("unexpected event: {:?}", ev),
	}
}

#[test]
fn parser_parse_attribute_without_namespace_prefix() {
	let (mut evs, r) = parse(&[
		Token::ElementHeadStart(dm(), "root".try_into().unwrap()),
		Token::Name(dm(), "xmlns".try_into().unwrap()),
		Token::Eq(dm()),
		Token::AttributeValue(dm(), TEST_NS.try_into().unwrap()),
		Token::Name(dm(), "foo".try_into().unwrap()),
		Token::Eq(dm()),
		Token::AttributeValue(dm(), "bar".try_into().unwrap()),
		Token::ElementHeadClose(dm()),
	]);
	r.unwrap();
	match evs.remove(0) {
		RawEvent::ElementHeadOpen(em, (prefix, localname)) => {
			assert_eq!(em.len(), 0);
			assert!(prefix.is_none());
			assert_eq!(localname, "root");
		}
		ev => panic!("unexpected event: {:?}", ev),
	}
	match evs.remove(0) {
		RawEvent::Attribute(em, (prefix, localname), value) => {
			assert_eq!(em.len(), 0);
			assert!(prefix.is_none());
			assert_eq!(localname, "xmlns");
			assert_eq!(value, TEST_NS);
		}
		ev => panic!("unexpected event: {:?}", ev),
	}
	match evs.remove(0) {
		RawEvent::Attribute(em, (prefix, localname), value) => {
			assert_eq!(em.len(), 0);
			assert!(prefix.is_none());
			assert_eq!(localname, "foo");
			assert_eq!(value, "bar");
		}
		ev => panic!("unexpected event: {:?}", ev),
	}
	match evs.remove(0) {
		RawEvent::ElementHeadClose(em) => {
			assert_eq!(em.len(), 0);
		}
		ev => panic!("unexpected event: {:?}", ev),
	}
}

#[test]
fn parser_parse_attribute_with_namespace_prefix() {
	let (mut evs, r) = parse(&[
		Token::ElementHeadStart(dm(), "root".try_into().unwrap()),
		Token::Name(dm(), "xmlns:foo".try_into().unwrap()),
		Token::Eq(dm()),
		Token::AttributeValue(dm(), TEST_NS.try_into().unwrap()),
		Token::Name(dm(), "foo:bar".try_into().unwrap()),
		Token::Eq(dm()),
		Token::AttributeValue(dm(), "baz".try_into().unwrap()),
		Token::ElementHeadClose(dm()),
	]);
	r.unwrap();
	match evs.remove(0) {
		RawEvent::ElementHeadOpen(em, (prefix, localname)) => {
			assert_eq!(em.len(), 0);
			assert!(prefix.is_none());
			assert_eq!(localname, "root");
		}
		ev => panic!("unexpected event: {:?}", ev),
	}
	match evs.remove(0) {
		RawEvent::Attribute(em, (prefix, localname), value) => {
			assert_eq!(em.len(), 0);
			assert_eq!(prefix.unwrap(), "xmlns");
			assert_eq!(localname, "foo");
			assert_eq!(value, TEST_NS);
		}
		ev => panic!("unexpected event: {:?}", ev),
	}
	match evs.remove(0) {
		RawEvent::Attribute(em, (prefix, localname), value) => {
			assert_eq!(em.len(), 0);
			assert_eq!(prefix.unwrap(), "foo");
			assert_eq!(localname, "bar");
			assert_eq!(value, "baz");
		}
		ev => panic!("unexpected event: {:?}", ev),
	}
	match evs.remove(0) {
		RawEvent::ElementHeadClose(em) => {
			assert_eq!(em.len(), 0);
		}
		ev => panic!("unexpected event: {:?}", ev),
	}
}

#[test]
fn parser_parse_reject_reserved_xmlns_prefix() {
	let (mut evs, r) = parse(&[
		Token::ElementHeadStart(dm(), "root".try_into().unwrap()),
		Token::Name(dm(), "xmlns:xmlns".try_into().unwrap()),
		Token::Eq(dm()),
		Token::AttributeValue(dm(), "baz".try_into().unwrap()),
		Token::ElementHeadClose(dm()),
	]);
	match evs.remove(0) {
		RawEvent::ElementHeadOpen(em, (prefix, localname)) => {
			assert_eq!(em.len(), 0);
			assert!(prefix.is_none());
			assert_eq!(localname, "root");
		}
		ev => panic!("unexpected event: {:?}", ev),
	}
	match r {
		Err(Error::NotNamespaceWellFormed(NWFError::ReservedNamespacePrefix)) => (),
		other => panic!("unexpected result: {:?}", other),
	}
	assert_eq!(evs.len(), 0);
}

#[test]
fn parser_parse_allow_xml_redeclaration() {
	let (mut evs, r) = parse(&[
		Token::ElementHeadStart(dm(), "root".try_into().unwrap()),
		Token::Name(dm(), "xmlns:xml".try_into().unwrap()),
		Token::Eq(dm()),
		Token::AttributeValue(
			dm(),
			"http://www.w3.org/XML/1998/namespace".try_into().unwrap(),
		),
		Token::ElementHeadClose(dm()),
	]);
	r.unwrap();
	match evs.remove(0) {
		RawEvent::ElementHeadOpen(em, (prefix, localname)) => {
			assert_eq!(em.len(), 0);
			assert!(prefix.is_none());
			assert_eq!(localname, "root");
		}
		ev => panic!("unexpected event: {:?}", ev),
	}
	match evs.remove(0) {
		RawEvent::Attribute(em, (prefix, localname), value) => {
			assert_eq!(em.len(), 0);
			assert_eq!(prefix.unwrap(), "xmlns");
			assert_eq!(localname, "xml");
			assert_eq!(value, "http://www.w3.org/XML/1998/namespace");
		}
		ev => panic!("unexpected event: {:?}", ev),
	}
	match evs.remove(0) {
		RawEvent::ElementHeadClose(em) => {
			assert_eq!(em.len(), 0);
		}
		ev => panic!("unexpected event: {:?}", ev),
	}
}

#[test]
fn parser_parse_reject_reserved_xml_prefix_with_incorrect_value() {
	let (mut evs, r) = parse(&[
		Token::ElementHeadStart(dm(), "root".try_into().unwrap()),
		Token::Name(dm(), "xmlns:xml".try_into().unwrap()),
		Token::Eq(dm()),
		Token::AttributeValue(dm(), "baz".try_into().unwrap()),
		Token::ElementHeadClose(dm()),
	]);
	match evs.remove(0) {
		RawEvent::ElementHeadOpen(em, (prefix, localname)) => {
			assert_eq!(em.len(), 0);
			assert!(prefix.is_none());
			assert_eq!(localname, "root");
		}
		ev => panic!("unexpected event: {:?}", ev),
	}
	match r {
		Err(Error::NotNamespaceWellFormed(NWFError::ReservedNamespacePrefix)) => (),
		other => panic!("unexpected result: {:?}", other),
	}
	assert_eq!(evs.len(), 0);
}

#[test]
fn parser_parse_reject_binding_xml_namespace_name_to_other_prefix() {
	let (mut evs, r) = parse(&[
		Token::ElementHeadStart(dm(), "root".try_into().unwrap()),
		Token::Name(dm(), "xmlns:fnord".try_into().unwrap()),
		Token::Eq(dm()),
		Token::AttributeValue(dm(), XMLNS_XML.try_into().unwrap()),
		Token::ElementHeadClose(dm()),
	]);
	match evs.remove(0) {
		RawEvent::ElementHeadOpen(em, (prefix, localname)) => {
			assert_eq!(em.len(), 0);
			assert!(prefix.is_none());
			assert_eq!(localname, "root");
		}
		ev => panic!("unexpected event: {:?}", ev),
	}
	match r {
		Err(Error::NotNamespaceWellFormed(NWFError::ReservedNamespaceName)) => (),
		other => panic!("unexpected result: {:?}", other),
	}
	assert_eq!(evs.len(), 0);
}

#[test]
fn parser_parse_nested_elements() {
	let (evs, r) = parse(&[
		Token::ElementHeadStart(dm(), "root".try_into().unwrap()),
		Token::ElementHFEnd(dm()),
		Token::ElementHeadStart(dm(), "child".try_into().unwrap()),
		Token::ElementHFEnd(dm()),
		Token::ElementFootStart(dm(), "child".try_into().unwrap()),
		Token::ElementHFEnd(dm()),
		Token::ElementFootStart(dm(), "root".try_into().unwrap()),
		Token::ElementHFEnd(dm()),
	]);
	r.unwrap();
	let mut iter = evs.iter();
	match iter.next().unwrap() {
		RawEvent::ElementHeadOpen(em, (prefix, localpart)) => {
			assert_eq!(em.len(), 0);
			assert!(prefix.is_none());
			assert_eq!(localpart, "root");
		}
		ev => panic!("unexpected event: {:?}", ev),
	}
	match iter.next().unwrap() {
		RawEvent::ElementHeadClose(em) => {
			assert_eq!(em.len(), 0);
		}
		ev => panic!("unexpected event: {:?}", ev),
	}
	match iter.next().unwrap() {
		RawEvent::ElementHeadOpen(em, (prefix, localpart)) => {
			assert_eq!(em.len(), 0);
			assert!(prefix.is_none());
			assert_eq!(localpart, "child");
		}
		ev => panic!("unexpected event: {:?}", ev),
	}
	match iter.next().unwrap() {
		RawEvent::ElementHeadClose(em) => {
			assert_eq!(em.len(), 0);
		}
		ev => panic!("unexpected event: {:?}", ev),
	}
	match iter.next().unwrap() {
		RawEvent::ElementFoot(em) => {
			assert_eq!(em.len(), 0);
		}
		ev => panic!("unexpected event: {:?}", ev),
	}
	match iter.next().unwrap() {
		RawEvent::ElementFoot(em) => {
			assert_eq!(em.len(), 0);
		}
		ev => panic!("unexpected event: {:?}", ev),
	}
}

#[test]
fn parser_parse_mixed_content() {
	let (evs, r) = parse(&[
		Token::ElementHeadStart(dm(), "root".try_into().unwrap()),
		Token::ElementHFEnd(dm()),
		Token::Text(dm(), "Hello".try_into().unwrap()),
		Token::ElementHeadStart(dm(), "child".try_into().unwrap()),
		Token::ElementHFEnd(dm()),
		Token::Text(dm(), "mixed".try_into().unwrap()),
		Token::ElementFootStart(dm(), "child".try_into().unwrap()),
		Token::ElementHFEnd(dm()),
		Token::Text(dm(), "world!".try_into().unwrap()),
		Token::ElementFootStart(dm(), "root".try_into().unwrap()),
		Token::ElementHFEnd(dm()),
	]);
	r.unwrap();
	let mut iter = evs.iter();
	match iter.next().unwrap() {
		RawEvent::ElementHeadOpen(em, (prefix, localpart)) => {
			assert_eq!(em.len(), 0);
			assert!(prefix.is_none());
			assert_eq!(localpart, "root");
		}
		ev => panic!("unexpected event: {:?}", ev),
	}
	match iter.next().unwrap() {
		RawEvent::ElementHeadClose(em) => {
			assert_eq!(em.len(), 0);
		}
		ev => panic!("unexpected event: {:?}", ev),
	}
	match iter.next().unwrap() {
		RawEvent::Text(em, v) => {
			assert_eq!(em.len(), 0);
			assert_eq!(v, "Hello");
		}
		ev => panic!("unexpected event: {:?}", ev),
	}
	match iter.next().unwrap() {
		RawEvent::ElementHeadOpen(em, (prefix, localpart)) => {
			assert_eq!(em.len(), 0);
			assert!(prefix.is_none());
			assert_eq!(localpart, "child");
		}
		ev => panic!("unexpected event: {:?}", ev),
	}
	match iter.next().unwrap() {
		RawEvent::ElementHeadClose(em) => {
			assert_eq!(em.len(), 0);
		}
		ev => panic!("unexpected event: {:?}", ev),
	}
	match iter.next().unwrap() {
		RawEvent::Text(em, v) => {
			assert_eq!(em.len(), 0);
			assert_eq!(v, "mixed");
		}
		ev => panic!("unexpected event: {:?}", ev),
	}
	match iter.next().unwrap() {
		RawEvent::ElementFoot(em) => {
			assert_eq!(em.len(), 0);
		}
		ev => panic!("unexpected event: {:?}", ev),
	}
	match iter.next().unwrap() {
		RawEvent::Text(em, v) => {
			assert_eq!(em.len(), 0);
			assert_eq!(v, "world!");
		}
		ev => panic!("unexpected event: {:?}", ev),
	}
	match iter.next().unwrap() {
		RawEvent::ElementFoot(em) => {
			assert_eq!(em.len(), 0);
		}
		ev => panic!("unexpected event: {:?}", ev),
	}
	match iter.next() {
		None => (),
		other => panic!("unexpected event: {:?}", other),
	}
}

#[test]
fn parser_reject_mismested_elements() {
	let (evs, r) = parse(&[
		Token::ElementHeadStart(dm(), "root".try_into().unwrap()),
		Token::ElementHFEnd(dm()),
		Token::ElementHeadStart(dm(), "child".try_into().unwrap()),
		Token::ElementHFEnd(dm()),
		Token::ElementFootStart(dm(), "nonchild".try_into().unwrap()),
		Token::ElementHFEnd(dm()),
		Token::ElementFootStart(dm(), "root".try_into().unwrap()),
		Token::ElementHFEnd(dm()),
	]);
	match r {
		Err(Error::NotWellFormed(WFError::ElementMismatch)) => (),
		other => panic!("unexpected result: {:?}", other),
	}
	let mut iter = evs.iter();
	match iter.next().unwrap() {
		RawEvent::ElementHeadOpen(em, (prefix, localpart)) => {
			assert_eq!(em.len(), 0);
			assert!(prefix.is_none());
			assert_eq!(localpart, "root");
		}
		ev => panic!("unexpected event: {:?}", ev),
	}
	match iter.next().unwrap() {
		RawEvent::ElementHeadClose(em) => {
			assert_eq!(em.len(), 0);
		}
		ev => panic!("unexpected event: {:?}", ev),
	}
	match iter.next().unwrap() {
		RawEvent::ElementHeadOpen(em, (prefix, localpart)) => {
			assert_eq!(em.len(), 0);
			assert!(prefix.is_none());
			assert_eq!(localpart, "child");
		}
		ev => panic!("unexpected event: {:?}", ev),
	}
	match iter.next().unwrap() {
		RawEvent::ElementHeadClose(em) => {
			assert_eq!(em.len(), 0);
		}
		ev => panic!("unexpected event: {:?}", ev),
	}
	match iter.next() {
		None => (),
		other => panic!("unexpected event: {:?}", other),
	}
}

#[test]
fn parser_parse_prefixed_elements() {
	let (evs, r) = parse(&[
		Token::ElementHeadStart(dm(), "x:root".try_into().unwrap()),
		Token::Name(dm(), "foo".try_into().unwrap()),
		Token::Eq(dm()),
		Token::AttributeValue(dm(), "bar".try_into().unwrap()),
		Token::Name(dm(), "xmlns:x".try_into().unwrap()),
		Token::Eq(dm()),
		Token::AttributeValue(dm(), TEST_NS.try_into().unwrap()),
		Token::ElementHFEnd(dm()),
		Token::ElementHeadStart(dm(), "child".try_into().unwrap()),
		Token::ElementHFEnd(dm()),
		Token::ElementFootStart(dm(), "child".try_into().unwrap()),
		Token::ElementHFEnd(dm()),
		Token::ElementFootStart(dm(), "x:root".try_into().unwrap()),
		Token::ElementHFEnd(dm()),
	]);
	r.unwrap();
	let mut iter = evs.iter();
	match iter.next().unwrap() {
		RawEvent::ElementHeadOpen(em, (prefix, localname)) => {
			assert_eq!(em.len(), 0);
			assert_eq!(prefix.as_ref().unwrap(), "x");
			assert_eq!(localname, "root");
		}
		ev => panic!("unexpected event: {:?}", ev),
	}
	match iter.next().unwrap() {
		RawEvent::Attribute(em, (prefix, localname), value) => {
			assert_eq!(em.len(), 0);
			assert!(prefix.is_none());
			assert_eq!(localname, "foo");
			assert_eq!(value, "bar");
		}
		ev => panic!("unexpected event: {:?}", ev),
	}
	match iter.next().unwrap() {
		RawEvent::Attribute(em, (prefix, localname), value) => {
			assert_eq!(em.len(), 0);
			assert_eq!(prefix.as_ref().unwrap(), "xmlns");
			assert_eq!(localname, "x");
			assert_eq!(value, TEST_NS);
		}
		ev => panic!("unexpected event: {:?}", ev),
	}
	match iter.next().unwrap() {
		RawEvent::ElementHeadClose(em) => {
			assert_eq!(em.len(), 0);
		}
		ev => panic!("unexpected event: {:?}", ev),
	}
	match iter.next().unwrap() {
		RawEvent::ElementHeadOpen(em, (prefix, localname)) => {
			assert_eq!(em.len(), 0);
			assert!(prefix.is_none());
			assert_eq!(localname, "child");
		}
		ev => panic!("unexpected event: {:?}", ev),
	}
	match iter.next().unwrap() {
		RawEvent::ElementHeadClose(em) => {
			assert_eq!(em.len(), 0);
		}
		ev => panic!("unexpected event: {:?}", ev),
	}
	match iter.next().unwrap() {
		RawEvent::ElementFoot(em) => {
			assert_eq!(em.len(), 0);
		}
		ev => panic!("unexpected event: {:?}", ev),
	}
	match iter.next().unwrap() {
		RawEvent::ElementFoot(em) => {
			assert_eq!(em.len(), 0);
		}
		ev => panic!("unexpected event: {:?}", ev),
	}
	match iter.next() {
		None => (),
		other => panic!("unexpected event: {:?}", other),
	}
}

#[test]
fn parser_parse_nested_prefixed_elements() {
	let (evs, r) = parse(&[
		Token::ElementHeadStart(dm(), "x:root".try_into().unwrap()),
		Token::Name(dm(), "foo".try_into().unwrap()),
		Token::Eq(dm()),
		Token::AttributeValue(dm(), "bar".try_into().unwrap()),
		Token::Name(dm(), "xmlns:x".try_into().unwrap()),
		Token::Eq(dm()),
		Token::AttributeValue(dm(), TEST_NS.try_into().unwrap()),
		Token::ElementHFEnd(dm()),
		Token::ElementHeadStart(dm(), "x:child".try_into().unwrap()),
		Token::ElementHFEnd(dm()),
		Token::ElementFootStart(dm(), "x:child".try_into().unwrap()),
		Token::ElementHFEnd(dm()),
		Token::ElementFootStart(dm(), "x:root".try_into().unwrap()),
		Token::ElementHFEnd(dm()),
	]);
	r.unwrap();
	let mut iter = evs.iter();
	match iter.next().unwrap() {
		RawEvent::ElementHeadOpen(em, (prefix, localname)) => {
			assert_eq!(em.len(), 0);
			assert_eq!(prefix.as_ref().unwrap(), "x");
			assert_eq!(localname, "root");
		}
		ev => panic!("unexpected event: {:?}", ev),
	}
	match iter.next().unwrap() {
		RawEvent::Attribute(em, (prefix, localname), value) => {
			assert_eq!(em.len(), 0);
			assert!(prefix.is_none());
			assert_eq!(localname, "foo");
			assert_eq!(value, "bar");
		}
		ev => panic!("unexpected event: {:?}", ev),
	}
	match iter.next().unwrap() {
		RawEvent::Attribute(em, (prefix, localname), value) => {
			assert_eq!(em.len(), 0);
			assert_eq!(prefix.as_ref().unwrap(), "xmlns");
			assert_eq!(localname, "x");
			assert_eq!(value, TEST_NS);
		}
		ev => panic!("unexpected event: {:?}", ev),
	}
	match iter.next().unwrap() {
		RawEvent::ElementHeadClose(em) => {
			assert_eq!(em.len(), 0);
		}
		ev => panic!("unexpected event: {:?}", ev),
	}
	match iter.next().unwrap() {
		RawEvent::ElementHeadOpen(em, (prefix, localname)) => {
			assert_eq!(em.len(), 0);
			assert_eq!(prefix.as_ref().unwrap(), "x");
			assert_eq!(localname, "child");
		}
		ev => panic!("unexpected event: {:?}", ev),
	}
	match iter.next().unwrap() {
		RawEvent::ElementHeadClose(em) => {
			assert_eq!(em.len(), 0);
		}
		ev => panic!("unexpected event: {:?}", ev),
	}
	match iter.next().unwrap() {
		RawEvent::ElementFoot(em) => {
			assert_eq!(em.len(), 0);
		}
		ev => panic!("unexpected event: {:?}", ev),
	}
	match iter.next().unwrap() {
		RawEvent::ElementFoot(em) => {
			assert_eq!(em.len(), 0);
		}
		ev => panic!("unexpected event: {:?}", ev),
	}
	match iter.next() {
		None => (),
		other => panic!("unexpected event: {:?}", other),
	}
}

#[test]
fn parser_parse_repeats_error_after_first_encounter() {
	let toks = &[
		Token::ElementHeadStart(dm(), "x:root".try_into().unwrap()),
		Token::Name(dm(), "xmlns:xml".try_into().unwrap()),
		Token::Eq(dm()),
		Token::AttributeValue(dm(), TEST_NS.try_into().unwrap()),
		Token::Name(dm(), "xmlns:y".try_into().unwrap()),
		Token::Eq(dm()),
		Token::AttributeValue(dm(), TEST_NS.try_into().unwrap()),
		Token::Name(dm(), "x:a".try_into().unwrap()),
		Token::Eq(dm()),
		Token::AttributeValue(dm(), "foo".try_into().unwrap()),
		Token::Name(dm(), "y:a".try_into().unwrap()),
		Token::Eq(dm()),
		Token::AttributeValue(dm(), "foo".try_into().unwrap()),
		Token::ElementHFEnd(dm()),
		Token::ElementFootStart(dm(), "x:root".try_into().unwrap()),
		Token::ElementHFEnd(dm()),
	];
	let mut reader = TokenSliceReader::new(toks);
	let mut parser = RawParser::new();
	let r = parser.parse(&mut reader);
	match r {
		Ok(Some(RawEvent::ElementHeadOpen(..))) => (),
		other => panic!("unexpected result: {:?}", other),
	}
	let r = parser.parse(&mut reader);
	match r {
		Err(Error::NotNamespaceWellFormed(NWFError::ReservedNamespacePrefix)) => (),
		other => panic!("unexpected result: {:?}", other),
	}
	let r = parser.parse(&mut reader);
	match r {
		Err(Error::NotNamespaceWellFormed(NWFError::ReservedNamespacePrefix)) => (),
		other => panic!("unexpected result: {:?}", other),
	}
}

#[test]
fn parser_rejects_empty_namespace_uri() {
	let toks = &[
		Token::ElementHeadStart(dm(), "x:root".try_into().unwrap()),
		Token::Name(dm(), "xmlns:x".try_into().unwrap()),
		Token::Eq(dm()),
		Token::AttributeValue(dm(), "".try_into().unwrap()),
		Token::ElementHFEnd(dm()),
		Token::ElementFootStart(dm(), "x:root".try_into().unwrap()),
		Token::ElementHFEnd(dm()),
	];
	let err = parse_err(toks).unwrap();
	match err {
		Error::NotNamespaceWellFormed(NWFError::EmptyNamespaceUri) => (),
		other => panic!("unexpected error: {:?}", other),
	}
}

#[test]
fn parser_allows_empty_namespace_uri_for_default_namespace() {
	let toks = &[
		Token::ElementHeadStart(dm(), "root".try_into().unwrap()),
		Token::Name(dm(), "xmlns".try_into().unwrap()),
		Token::Eq(dm()),
		Token::AttributeValue(dm(), "".try_into().unwrap()),
		Token::ElementHFEnd(dm()),
		Token::ElementFootStart(dm(), "root".try_into().unwrap()),
		Token::ElementHFEnd(dm()),
	];
	let (_evs, r) = parse(toks);
	r.unwrap();
}

#[test]
fn parser_reject_element_after_root_element() {
	let (evs, r) = parse(&[
		Token::ElementHeadStart(dm(), "root".try_into().unwrap()),
		Token::ElementHFEnd(dm()),
		Token::ElementFootStart(dm(), "root".try_into().unwrap()),
		Token::ElementHFEnd(dm()),
		Token::ElementHeadStart(dm(), "garbage".try_into().unwrap()),
		Token::ElementHFEnd(dm()),
		Token::ElementFootStart(dm(), "garbage".try_into().unwrap()),
		Token::ElementHFEnd(dm()),
	]);
	let mut iter = evs.iter();
	match iter.next().unwrap() {
		RawEvent::ElementHeadOpen(em, (prefix, localpart)) => {
			assert_eq!(em.len(), 0);
			assert!(prefix.is_none());
			assert_eq!(localpart, "root");
		}
		other => panic!("unexpected event: {:?}", other),
	}
	match iter.next().unwrap() {
		RawEvent::ElementHeadClose(_) => (),
		other => panic!("unexpected event: {:?}", other),
	}
	match iter.next().unwrap() {
		RawEvent::ElementFoot(_) => (),
		other => panic!("unexpected event: {:?}", other),
	}
	match iter.next() {
		None => (),
		other => panic!("unexpected event: {:?}", other),
	}
	match r {
		Err(Error::NotWellFormed(WFError::UnexpectedToken(_, _, _))) => (),
		other => panic!("unexpected result: {:?}", other),
	}
}

#[test]
fn parser_reject_text_after_root_element() {
	let (evs, r) = parse(&[
		Token::ElementHeadStart(dm(), "root".try_into().unwrap()),
		Token::ElementHFEnd(dm()),
		Token::ElementFootStart(dm(), "root".try_into().unwrap()),
		Token::ElementHFEnd(dm()),
		Token::Text(dm(), "foo".try_into().unwrap()),
	]);
	let mut iter = evs.iter();
	match iter.next().unwrap() {
		RawEvent::ElementHeadOpen(em, (prefix, localpart)) => {
			assert_eq!(em.len(), 0);
			assert!(prefix.is_none());
			assert_eq!(localpart, "root");
		}
		other => panic!("unexpected event: {:?}", other),
	}
	match iter.next().unwrap() {
		RawEvent::ElementHeadClose(_) => (),
		other => panic!("unexpected event: {:?}", other),
	}
	match iter.next().unwrap() {
		RawEvent::ElementFoot(_) => (),
		other => panic!("unexpected event: {:?}", other),
	}
	match iter.next() {
		None => (),
		other => panic!("unexpected event: {:?}", other),
	}
	match r {
		Err(Error::NotWellFormed(WFError::UnexpectedToken(_, _, _))) => (),
		other => panic!("unexpected result: {:?}", other),
	}
}

#[test]
fn parser_allow_whitespace_after_root_element() {
	let (evs, r) = parse(&[
		Token::ElementHeadStart(dm(), "root".try_into().unwrap()),
		Token::ElementHFEnd(dm()),
		Token::ElementFootStart(dm(), "root".try_into().unwrap()),
		Token::ElementHFEnd(dm()),
		Token::Text(dm(), " \t\r\n".try_into().unwrap()),
		Token::Text(dm(), "\n\r\t ".try_into().unwrap()),
	]);
	let mut iter = evs.iter();
	match iter.next().unwrap() {
		RawEvent::ElementHeadOpen(em, (prefix, localpart)) => {
			assert_eq!(em.len(), 0);
			assert!(prefix.is_none());
			assert_eq!(localpart, "root");
		}
		other => panic!("unexpected event: {:?}", other),
	}
	match iter.next().unwrap() {
		RawEvent::ElementHeadClose(_) => (),
		other => panic!("unexpected event: {:?}", other),
	}
	match iter.next().unwrap() {
		RawEvent::ElementFoot(_) => (),
		other => panic!("unexpected event: {:?}", other),
	}
	match iter.next() {
		None => (),
		other => panic!("unexpected event: {:?}", other),
	}
	r.unwrap();
}

#[test]
fn parser_does_not_panic_on_too_many_closing_elements() {
	let err = parse_err(&[
		Token::ElementHeadStart(dm(), "root".try_into().unwrap()),
		Token::ElementHFEnd(dm()),
		Token::ElementFootStart(dm(), "root".try_into().unwrap()),
		Token::ElementHFEnd(dm()),
		Token::ElementFootStart(dm(), "root".try_into().unwrap()),
		Token::ElementHFEnd(dm()),
	]);
	match err {
		Some(Error::NotWellFormed(WFError::UnexpectedToken(..))) => (),
		other => panic!("unexpected error: {:?}", other),
	}
}

#[test]
fn parser_forwards_metrics() {
	let (evs, r) = parse(&[
		Token::ElementHeadStart(TokenMetrics::new(0, 2), "root".try_into().unwrap()),
		Token::ElementHFEnd(TokenMetrics::new(2, 3)),
		Token::Text(TokenMetrics::new(3, 8), "Hello".try_into().unwrap()),
		Token::ElementHeadStart(TokenMetrics::new(8, 11), "child".try_into().unwrap()),
		Token::Name(TokenMetrics::new(12, 13), "foo".try_into().unwrap()),
		Token::Eq(TokenMetrics::new(13, 15)),
		Token::AttributeValue(TokenMetrics::new(15, 18), "bar".try_into().unwrap()),
		Token::ElementHFEnd(TokenMetrics::new(18, 20)),
		Token::Text(TokenMetrics::new(20, 30), "mixed".try_into().unwrap()),
		Token::ElementFootStart(TokenMetrics::new(30, 31), "child".try_into().unwrap()),
		Token::ElementHFEnd(TokenMetrics::new(31, 33)),
		Token::Text(TokenMetrics::new(33, 40), "world!".try_into().unwrap()),
		Token::ElementFootStart(TokenMetrics::new(40, 42), "root".try_into().unwrap()),
		Token::ElementHFEnd(TokenMetrics::new(42, 45)),
	]);
	r.unwrap();
	let mut iter = evs.iter();
	match iter.next().unwrap() {
		RawEvent::ElementHeadOpen(em, ..) => {
			assert_eq!(em.len(), 2);
		}
		other => panic!("unexpected event: {:?}", other),
	}
	match iter.next().unwrap() {
		RawEvent::ElementHeadClose(em, ..) => {
			assert_eq!(em.len(), 1);
		}
		other => panic!("unexpected event: {:?}", other),
	}
	match iter.next().unwrap() {
		RawEvent::Text(em, ..) => {
			assert_eq!(em.len(), 5);
		}
		other => panic!("unexpected event: {:?}", other),
	}
	match iter.next().unwrap() {
		RawEvent::ElementHeadOpen(em, ..) => {
			assert_eq!(em.len(), 3);
		}
		other => panic!("unexpected event: {:?}", other),
	}
	match iter.next().unwrap() {
		RawEvent::Attribute(em, ..) => {
			assert_eq!(em.len(), 7);
		}
		other => panic!("unexpected event: {:?}", other),
	}
	match iter.next().unwrap() {
		RawEvent::ElementHeadClose(em, ..) => {
			assert_eq!(em.len(), 2);
		}
		other => panic!("unexpected event: {:?}", other),
	}
	match iter.next().unwrap() {
		RawEvent::Text(em, ..) => {
			assert_eq!(em.len(), 10);
		}
		other => panic!("unexpected event: {:?}", other),
	}
	match iter.next().unwrap() {
		RawEvent::ElementFoot(em, ..) => {
			assert_eq!(em.len(), 3);
		}
		other => panic!("unexpected event: {:?}", other),
	}
	match iter.next().unwrap() {
		RawEvent::Text(em, ..) => {
			assert_eq!(em.len(), 7);
		}
		other => panic!("unexpected event: {:?}", other),
	}
	match iter.next().unwrap() {
		RawEvent::ElementFoot(em, ..) => {
			assert_eq!(em.len(), 5);
		}
		other => panic!("unexpected event: {:?}", other),
	}
}


#[test]
fn parser_rejects_xml_declaration_after_root_as_unexpected_token() {
	let err = parse_err(&[
		Token::ElementHeadStart(dm(), "root".try_into().unwrap()),
		Token::ElementHeadClose(dm()),
		Token::XMLDeclStart(dm()),
	]);
	match err {
		Some(Error::NotWellFormed(WFError::UnexpectedToken(..))) => (),
		other => panic!("unexpected error: {:?}", other),
	}
}

#[test]
fn parser_restricts_xml_declaration_in_content() {
	let err = parse_err(&[
		Token::ElementHeadStart(dm(), "root".try_into().unwrap()),
		Token::ElementHFEnd(dm()),
		Token::XMLDeclStart(dm()),
	]);
	match err {
		Some(Error::RestrictedXml(_)) => (),
		other => panic!("unexpected error: {:?}", other),
	}
}
