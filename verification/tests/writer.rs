//! Tests of the namespace tracker and the encoder.
use std::convert::TryFrom;

use bytes::BytesMut;

use rxml::parser::{EventMetrics, NamespaceName, RcPtr, ResolvedEvent, XMLVersion, XMLNS_XML};
use rxml::parser::common::XMLNS_XMLNS;
use rxml::strings::{CData, NCName, NCNameStr};
use rxml::writer::{EncodeError, Encoder, Item, PrefixError, SimpleNamespaces, TrackNamespace, PREFIX_XML, PREFIX_XMLNS};
use rxml::EventRead;


fn ns1() -> NamespaceName {
	RcPtr::new(CData::try_from("uri:foo").unwrap())
}

fn ns2() -> NamespaceName {
	RcPtr::new(CData::try_from("uri:bar").unwrap())
}

fn ns3() -> NamespaceName {
	RcPtr::new(CData::try_from("uri:baz").unwrap())
}

fn mk() -> SimpleNamespaces {
	SimpleNamespaces::new()
}

#[test]
fn prefers_setting_default_namespace() {
	let mut ns = mk();
	let (new, prefix) = ns.declare_auto(Some(ns1()));
	assert!(new);
	assert!(prefix.is_none());
}

#[test]
fn unset_namespace_is_not_new_initially() {
	let mut ns = mk();
	let (new, prefix) = ns.declare_auto(None);
	assert!(!new);
	assert!(prefix.is_none());
}

#[test]
fn hardcoded_xmlns_namespace_for_declare_auto() {
	let mut ns = mk();
	let (new, prefix) = ns.declare_auto(Some(RcPtr::new(CData::from_str(XMLNS_XMLNS).unwrap())));
	assert!(!new);
	assert!(prefix.unwrap() == "xmlns");
}

#[test]
fn hardcoded_xml_namespace_for_declare_auto() {
	let mut ns = mk();
	let (new, prefix) = ns.declare_auto(Some(RcPtr::new(CData::from_str(XMLNS_XML).unwrap())));
	assert!(!new);
	assert!(prefix.unwrap() == "xml");
}

#[test]
fn hardcoded_xmlns_namespace_for_declare_with_auto_prefix() {
	let mut ns = mk();
	let (new, prefix) = ns.declare_with_auto_prefix(Some(RcPtr::new(CData::from_str(XMLNS_XMLNS).unwrap())));
	assert!(!new);
	assert!(prefix == "xmlns");
}

#[test]
fn hardcoded_xml_namespace_for_declare_with_auto_prefix() {
	let mut ns = mk();
	let (new, prefix) = ns.declare_with_auto_prefix(Some(RcPtr::new(CData::from_str(XMLNS_XML).unwrap())));
	assert!(!new);
	assert!(prefix == "xml");
}

#[test]
fn hardcoded_xmlns_namespace_for_declare_fixed() {
	let mut ns = mk();
	let new = ns.declare_fixed(Some(&NCName::from_str(PREFIX_XMLNS).unwrap()), Some(RcPtr::new(CData::from_str(XMLNS_XMLNS).unwrap())));
	assert!(!new);
}

#[test]
fn hardcoded_xml_namespace_for_declare_fixed() {
	let mut ns = mk();
	let new = ns.declare_fixed(Some(&NCName::from_str(PREFIX_XML).unwrap()), Some(RcPtr::new(CData::from_str(XMLNS_XML).unwrap())));
	assert!(!new);
}

#[test]
fn retrieve_default_namespace() {
	let mut ns = mk();
	ns.declare_auto(Some(ns1()));
	match ns.get_prefix_or_default(Some(ns1())) {
		Ok(None) => {}
		other => panic!("unexpected get_prefix_or_default result: {:?}", other),
	};
}

#[test]
fn reuses_existing_declaration_if_available() {
	let mut ns = mk();
	ns.declare_auto(Some(ns1()));
	let (new, prefix) = ns.declare_auto(Some(ns1()));
	assert!(!new);
	assert!(prefix.is_none());
}

#[test]
fn allocates_prefix_if_default_is_already_set() {
	let mut ns = mk();
	ns.declare_auto(Some(ns1()));
	let (new, prefix) = ns.declare_auto(Some(ns2()));
	assert!(new);
	assert!(prefix.is_some());
}

#[test]
fn retrieve_prefixed_namespace() {
	let mut ns = mk();
	let prefix = ns.declare_with_auto_prefix(Some(ns1())).1.to_ncname();
	match ns.get_prefix_or_default(Some(ns1())) {
		Ok(Some(v)) => {
			assert_eq!(*v, prefix);
		}
		other => panic!("unexpected get_prefix_or_default result: {:?}", other),
	};
}

#[test]
fn reuses_auto_allocated_prefix_for_same_ns() {
	let mut ns = mk();
	let prefix1 = ns.declare_with_auto_prefix(Some(ns1())).1.to_ncname();
	let prefix2 = ns.declare_with_auto_prefix(Some(ns1())).1.to_ncname();
	assert_eq!(prefix1, prefix2);
}

#[test]
fn auto_allocates_different_prefixes_for_different_ns() {
	let mut ns = mk();
	let prefix1 = ns.declare_with_auto_prefix(Some(ns1())).1.to_ncname();
	let prefix2 = ns.declare_with_auto_prefix(Some(ns2())).1.to_ncname();
	assert_ne!(prefix1, prefix2);
}

#[test]
fn preserves_default_ns_across_elements() {
	let mut ns = mk();
	ns.declare_auto(Some(ns1()));
	ns.get_prefix_or_default(Some(ns1())).unwrap();
	ns.push();
	let (new, prefix) = ns.declare_auto(Some(ns1()));
	assert!(!new);
	assert!(prefix.is_none());
	assert!(ns.get_prefix_or_default(Some(ns1())).unwrap().is_none());
}

#[test]
fn declare_with_fixed_prefix() {
	let mut ns = mk();
	ns.declare_fixed(Some(&NCNameStr::from_str("stream").unwrap()), Some(ns1()));
	match ns.get_prefix(Some(ns1())) {
		Ok(v) => {
			assert_eq!(v, "stream");
		}
		other => panic!("unexpected get_prefix result: {:?}", other),
	}
	match ns.get_prefix_or_default(Some(ns1())) {
		Ok(Some(v)) => {
			assert_eq!(v, "stream");
		}
		other => panic!("unexpected get_prefix result: {:?}", other),
	}
}

#[test]
fn declare_fixed_prefixless() {
	let mut ns = mk();
	ns.declare_fixed(None, Some(ns1()));
	match ns.get_prefix_or_default(Some(ns1())) {
		Ok(None) => (),
		other => panic!("unexpected get_prefix result: {:?}", other),
	}
	match ns.get_prefix(Some(ns1())) {
		Err(PrefixError::Undeclared) => (),
		other => panic!("unexpected get_prefix result: {:?}", other),
	}
}

#[test]
fn preserves_global_prefixed_across_elements() {
	let mut ns = mk();
	ns.declare_fixed(Some(&NCNameStr::from_str("stream").unwrap()), Some(ns1()));
	ns.declare_fixed(None, Some(ns2()));
	ns.push();
	match ns.get_prefix(Some(ns1())) {
		Ok(v) => {
			assert_eq!(v, "stream");
		}
		other => panic!("unexpected get_prefix result: {:?}", other),
	}
	match ns.get_prefix_or_default(Some(ns1())) {
		Ok(Some(v)) => {
			assert_eq!(v, "stream");
		}
		other => panic!("unexpected get_prefix result: {:?}", other),
	}
	match ns.get_prefix_or_default(Some(ns2())) {
		Ok(None) => (),
		other => panic!("unexpected get_prefix result: {:?}", other),
	}
	match ns.get_prefix(Some(ns2())) {
		Err(PrefixError::Undeclared) => (),
		other => panic!("unexpected get_prefix result: {:?}", other),
	}
}

#[test]
fn auto_allocations_stay_global_and_do_not_cause_conflicts() {
	let mut ns = mk();
	let prefix1 = ns.declare_with_auto_prefix(Some(ns1())).1.to_ncname();
	let prefix2 = ns.declare_with_auto_prefix(Some(ns2())).1.to_ncname();
	ns.push();
	let (new, prefix3) = ns.declare_with_auto_prefix(Some(ns3()));
	assert!(new);
	let prefix3 = prefix3.to_ncname();
	assert_ne!(prefix1, prefix3);
	assert_ne!(prefix2, prefix3);
}


fn mkencoder() -> Encoder<SimpleNamespaces> {
	Encoder::new()
}

fn parse(mut input: &[u8]) -> (Vec<ResolvedEvent>, rxml::Result<bool>) {
	let mut parser = rxml::PullParser::new(&mut input);
	let mut events = Vec::new();
	let result = parser.read_all_eof(|ev| events.push(ev));
	(events, result)
}

fn encode_events(evs: &[ResolvedEvent]) -> Result<Vec<u8>, EncodeError> {
	let mut out = Vec::new();
	let mut encoder = mkencoder();
	for ev in evs {
		encoder.encode_event(&ev, &mut out)?;
	}
	Ok(out)
}

fn encode_events_via_into_bytes(evs: &[ResolvedEvent]) -> Result<BytesMut, EncodeError> {
	let mut out = BytesMut::new();
	let mut encoder = mkencoder();
	for ev in evs {
		encoder.encode_event_into_bytes(&ev, &mut out)?;
	}
	Ok(out)
}

fn collapse_cdata(evs: &mut Vec<ResolvedEvent>) {
	let mut buf = Vec::new();
	std::mem::swap(&mut buf, evs);
	let mut cdata_hold = None;
	for event in buf.drain(..) {
		match event {
			ResolvedEvent::Text(_, txt) => match cdata_hold.take() {
				None => cdata_hold = Some(txt),
				Some(existing) => cdata_hold = Some(existing + &txt),
			},
			_ => {
				match cdata_hold.take() {
					Some(txt) => evs.push(ResolvedEvent::Text(EventMetrics::new(0), txt)),
					None => (),
				};
				evs.push(event);
			}
		}
	}
	match cdata_hold.take() {
		Some(txt) => evs.push(ResolvedEvent::Text(EventMetrics::new(0), txt)),
		None => (),
	};
}

fn assert_event_eq(a: &ResolvedEvent, b: &ResolvedEvent) {
	match (a, b) {
		(ResolvedEvent::XMLDeclaration(_, v1), ResolvedEvent::XMLDeclaration(_, v2)) => {
			assert_eq!(v1, v2);
		}
		(
			ResolvedEvent::StartElement(_, name1, attrs1),
			ResolvedEvent::StartElement(_, name2, attrs2),
		) => {
			assert_eq!(name1, name2);
			assert_eq!(attrs1, attrs2);
		}
		(ResolvedEvent::EndElement(_), ResolvedEvent::EndElement(_)) => {}
		(ResolvedEvent::Text(_, text1), ResolvedEvent::Text(_, text2)) => {
			assert_eq!(text1, text2);
		}
		// will always raise
		(a, b) => panic!("event types differ: {:?} != {:?}", a, b),
	}
}

fn assert_events_eq(initial: &[ResolvedEvent], reparsed: &[ResolvedEvent]) {
	for (a, b) in initial.iter().zip(reparsed.iter()) {
		assert_event_eq(a, b);
	}
	if initial.len() > reparsed.len() {
		panic!(
			"missing {} events in reparsed version",
			initial.len() - reparsed.len()
		)
	}
	if reparsed.len() > initial.len() {
		panic!(
			"{} additional events in reparsed version: {:?}",
			reparsed.len() - initial.len(),
			&reparsed[initial.len()..]
		)
	}
}

fn check_reserialized(
	input: &[u8],
	initial: &[ResolvedEvent],
	initial_eof: bool,
	reserialized: &[u8],
	via: &'static str,
) {
	let (mut reparsed, reparsed_result) = parse(&reserialized[..]);
	collapse_cdata(&mut reparsed);
	let reparsed_eof = match reparsed_result {
		Ok(eof) => eof,
		Err(e) => {
			panic!(
				"reserialized (via {}) XML\n\n{:?}\n\n  of\n\n{:?}\n\nfails to parse: {:?}",
				via,
				String::from_utf8_lossy(&reserialized[..]),
				String::from_utf8_lossy(input),
				e
			)
		}
	};
	println!("checking (via {})", via);
	println!(
		"reserialized: {:?}",
		String::from_utf8_lossy(&reserialized[..])
	);
	assert_events_eq(initial, &reparsed);
	assert_eq!(initial_eof, reparsed_eof);
}

fn roundtrip_test(input: &[u8]) {
	// goal: test that a parsed thing can be serialized again and then parsed to the semantically equivalent series of events
	let (mut initial, initial_result) = parse(input);
	collapse_cdata(&mut initial);
	let initial_eof = initial_result.expect("test input must parse correctly");
	let reserialized_via_buf =
		encode_events(&initial[..]).expect("parsed input must be encodable");
	let reserialized_via_bytes =
		encode_events_via_into_bytes(&initial[..]).expect("parsed input must be encodable");
	check_reserialized(
		input,
		&initial,
		initial_eof,
		&reserialized_via_buf[..],
		"buf",
	);
	check_reserialized(
		input,
		&initial,
		initial_eof,
		&reserialized_via_bytes[..],
		"bytes",
	);
}

#[test]
fn reject_duplicate_xml_declaration() {
	let mut enc = mkencoder();
	let mut buf: Vec<u8> = Vec::new();
	match enc.encode(Item::XMLDeclaration(XMLVersion::V1_0), &mut buf) {
		Ok(()) => (),
		other => panic!("unexpected encode result: {:?}", other),
	};
	match enc.encode(Item::XMLDeclaration(XMLVersion::V1_0), &mut buf) {
		Err(EncodeError::MisplacedXMLDeclaration) => (),
		other => panic!("unexpected encode result: {:?}", other),
	};
}

#[test]
fn reject_text_at_global_level() {
	let mut enc = mkencoder();
	let mut buf: Vec<u8> = Vec::new();
	match enc.encode(Item::Text(&CData::try_from("").unwrap()), &mut buf) {
		Err(EncodeError::TextNotAllowed) => (),
		other => panic!("unexpected encode result: {:?}", other),
	};
}

#[test]
fn reject_attribute_at_global_level() {
	let mut enc = mkencoder();
	let mut buf: Vec<u8> = Vec::new();
	match enc.encode(
		Item::Attribute(None, &NCName::try_from("x").unwrap(), &CData::try_from("").unwrap()),
		&mut buf,
	) {
		Err(EncodeError::AttributeNotAllowed) => (),
		other => panic!("unexpected encode result: {:?}", other),
	};
}

#[test]
fn allow_element_before_decl() {
	let mut enc = mkencoder();
	let mut buf: Vec<u8> = Vec::new();
	match enc.encode(
		Item::ElementHeadStart(None, &NCName::try_from("x").unwrap()),
		&mut buf,
	) {
		Ok(()) => (),
		other => panic!("unexpected encode result: {:?}", other),
	};
}

#[test]
fn reject_xml_decl_in_element() {
	let mut enc = mkencoder();
	let mut buf: Vec<u8> = Vec::new();
	match enc.encode(
		Item::ElementHeadStart(None, &NCName::try_from("x").unwrap()),
		&mut buf,
	) {
		Ok(()) => (),
		other => panic!("unexpected encode result: {:?}", other),
	};
	match enc.encode(Item::XMLDeclaration(XMLVersion::V1_0), &mut buf) {
		Err(EncodeError::MisplacedXMLDeclaration) => (),
		other => panic!("unexpected encode result: {:?}", other),
	};
}

#[test]
fn reject_element_after_end_of_document() {
	let mut enc = mkencoder();
	let mut buf: Vec<u8> = Vec::new();
	match enc.encode(
		Item::ElementHeadStart(None, &NCName::try_from("x").unwrap()),
		&mut buf,
	) {
		Ok(()) => (),
		other => panic!("unexpected encode result: {:?}", other),
	};
	match enc.encode(Item::ElementHeadEnd, &mut buf) {
		Ok(()) => (),
		other => panic!("unexpected encode result: {:?}", other),
	};
	match enc.encode(Item::ElementFoot, &mut buf) {
		Ok(()) => (),
		other => panic!("unexpected encode result: {:?}", other),
	};
	match enc.encode(
		Item::ElementHeadStart(None, &NCName::try_from("x").unwrap()),
		&mut buf,
	) {
		Err(EncodeError::EndOfDocument) => (),
		other => panic!("unexpected encode result: {:?}", other),
	};
}

#[test]
fn reject_element_foot_before_start() {
	let mut enc = mkencoder();
	let mut buf: Vec<u8> = Vec::new();
	match enc.encode(Item::ElementFoot, &mut buf) {
		Err(EncodeError::ElementFootNotAllowed) => (),
		other => panic!("unexpected encode result: {:?}", other),
	};
}

#[test]
fn reject_element_foot_within_heading() {
	let mut enc = mkencoder();
	let mut buf: Vec<u8> = Vec::new();
	match enc.encode(
		Item::ElementHeadStart(None, &NCName::try_from("x").unwrap()),
		&mut buf,
	) {
		Ok(()) => (),
		other => panic!("unexpected encode result: {:?}", other),
	};
	match enc.encode(Item::ElementFoot, &mut buf) {
		Err(EncodeError::ElementFootNotAllowed) => (),
		other => panic!("unexpected encode result: {:?}", other),
	};
}

#[test]
fn reject_element_head_end_outside_element_header() {
	let mut enc = mkencoder();
	let mut buf: Vec<u8> = Vec::new();
	match enc.encode(Item::ElementHeadEnd, &mut buf) {
		Err(EncodeError::NoOpenElement) => (),
		other => panic!("unexpected encode result: {:?}", other),
	};
	match enc.encode(
		Item::ElementHeadStart(None, &NCName::try_from("x").unwrap()),
		&mut buf,
	) {
		Ok(()) => (),
		other => panic!("unexpected encode result: {:?}", other),
	};
	match enc.encode(Item::ElementHeadEnd, &mut buf) {
		Ok(()) => (),
		other => panic!("unexpected encode result: {:?}", other),
	};
	match enc.encode(Item::ElementHeadEnd, &mut buf) {
		Err(EncodeError::NoOpenElement) => (),
		other => panic!("unexpected encode result: {:?}", other),
	};
}

#[test]
fn reject_text_after_end_of_document() {
	let mut enc = mkencoder();
	let mut buf: Vec<u8> = Vec::new();
	match enc.encode(
		Item::ElementHeadStart(None, &NCName::try_from("x").unwrap()),
		&mut buf,
	) {
		Ok(()) => (),
		other => panic!("unexpected encode result: {:?}", other),
	};
	match enc.encode(Item::ElementHeadEnd, &mut buf) {
		Ok(()) => (),
		other => panic!("unexpected encode result: {:?}", other),
	};
	match enc.encode(Item::ElementFoot, &mut buf) {
		Ok(()) => (),
		other => panic!("unexpected encode result: {:?}", other),
	};
	match enc.encode(Item::Text(&CData::try_from("").unwrap()), &mut buf) {
		Err(EncodeError::EndOfDocument) => (),
		other => panic!("unexpected encode result: {:?}", other),
	};
}

#[test]
fn single_element_roundtrip() {
	roundtrip_test(b"<?xml version='1.0'?>\n<a/>")
}

#[test]
fn nested_element_roundtrip() {
	roundtrip_test(b"<?xml version='1.0'?>\n<a><b/></a>")
}

#[test]
fn mixed_content_roundtrip() {
	roundtrip_test(b"<?xml version='1.0'?>\n<a>foo<b>bar</b>baz</a>")
}

#[test]
fn text_with_lt_roundtrip() {
	roundtrip_test(b"<?xml version='1.0'?>\n<a>&lt;</a>")
}

#[test]
fn text_with_gt_roundtrip() {
	roundtrip_test(b"<?xml version='1.0'?>\n<a>&gt;</a>")
}

#[test]
fn text_with_escaped_entity_roundtrip() {
	roundtrip_test(b"<?xml version='1.0'?>\n<a>&amp;amp;</a>")
}

#[test]
fn text_cdata_sequence_roundtrip() {
	roundtrip_test(b"<?xml version='1.0'?>\n<a>]]&gt;</a>")
}

#[test]
fn attribute_roundtrip() {
	roundtrip_test(b"<?xml version='1.0'?>\n<a a1='foo' a2=\"bar\"/>")
}

#[test]
fn attribute_whitespace_roundtrip() {
	roundtrip_test(b"<?xml version='1.0'?>\n<a a1='&#xd;&#xa;&#x9; '/>")
}

#[test]
fn attribute_quotes_roundtrip() {
	roundtrip_test(b"<?xml version='1.0'?>\n<a a1='&quot;&apos;'/>")
}

#[test]
fn namespace_roundtrip() {
	roundtrip_test(b"<?xml version='1.0'?>\n<a xmlns='uri:foo'/>")
}

#[test]
fn namespace_roundtrip_builtins() {
	roundtrip_test(b"<?xml version='1.0'?>\n<a xml:lang='de'/>")
}

#[test]
fn namespace_roundtrip_with_prefixes() {
	roundtrip_test(
		b"<?xml version='1.0'?>\n<a xmlns='uri:foo' xmlns:b='uri:bar'><b:b><c/></b:b></a>",
	)
}

#[test]
fn roundtrip_escaped_crlf() {
	roundtrip_test(b"<?xml version='1.0'?>\n<a>\r\n&#xd;&#xa;</a>")
}

#[test]
fn prefixed_attribute_roundtrip() {
	roundtrip_test(
		b"<?xml version='1.0'?>\n<a xmlns:b='uri:foo' b:a1='baz' a2='fnord' b:a3='foobar'/>",
	)
}


fn escaped(data: &[u8], attr: bool) -> Vec<u8> {
	let mut out = Vec::new();
	rxml::writer::escape::escape(&mut out, data, attr);
	out
}

#[test]
fn escape_replaces_specials_in_text() {
	assert_eq!(escaped(b"a<b>&c\r\"'\n\t", false), b"a&lt;b&gt;&amp;c&#xd;\"'\n\t".to_vec());
}

#[test]
fn escape_replaces_specials_in_attributes() {
	assert_eq!(
		escaped(b"a<b>&c\r\"'\n\t", true),
		b"a&lt;b&gt;&amp;c&#xd;&#34;&#39;&#xa;&#x9;".to_vec()
	);
}

#[test]
fn escape_keeps_references_apart_from_their_characters() {
	// a reference in the data is escaped itself, so it differs from the
	// escaped form of the character it names
	assert_ne!(escaped(b"&lt;", false), escaped(b"<", false));
	assert_eq!(escaped(b"&lt;", false), b"&amp;lt;".to_vec());
	assert_eq!(escaped(b"", true), b"".to_vec());
}
