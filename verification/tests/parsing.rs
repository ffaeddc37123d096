//! Tests of the drivers: push-based and pull-based parsing of documents.
use std::convert::TryFrom;
use std::io;

use rxml::{as_eof_flag, Error, EventRead, FeedParser, NCName, PullParser, ResolvedEvent, XMLVersion};

#[test]
fn long_element_names() {
	let doc = b"<jitsi_participant_codecType>vp9</jitsi_participant_codecType>";

	let mut fp = FeedParser::default();
	let mut out = Vec::<ResolvedEvent>::new();
	let mut doc_buf = &doc[..];
	let result = as_eof_flag(fp.parse_all(&mut doc_buf, false, |ev| {
		out.push(ev);
	}));
	result.unwrap();
}

#[test]
fn restricted_xml_for_xml_stylesheet() {
	let doc = b"<?xml version='1.0'?>\n<?xml-stylesheet?>";

	let mut fp = FeedParser::default();
	let mut out = Vec::<ResolvedEvent>::new();
	let mut doc_buf = &doc[..];
	let result = as_eof_flag(fp.parse_all(&mut doc_buf, false, |ev| {
		out.push(ev);
	}));
	match result {
		Err(Error::RestrictedXml(_)) => (),
		other => panic!("no or unexpected error: {:?}", other),
	}
}

#[test]
fn restricted_xml_for_late_xml_stylesheets() {
	let doc = b"<?xml version='1.0'?>\n<root><?xml-stylesheet?></root>";

	let mut fp = FeedParser::default();
	let mut out = Vec::<ResolvedEvent>::new();
	let mut doc_buf = &doc[..];
	let result = as_eof_flag(fp.parse_all(&mut doc_buf, false, |ev| {
		out.push(ev);
	}));
	match result {
		Err(Error::RestrictedXml(_)) => (),
		other => panic!("no or unexpected error: {:?}", other),
	}
}

// note that this is just a smoketest... the components of the FeedParser
// are tested extensively in the modules.
#[test]
fn feedparser_can_read_xml_document() {
	let doc = b"<?xml version='1.0'?>\n<root xmlns='urn:uuid:fab98e86-7c09-477c-889c-0313d9877bb4' a=\"foo\" b='bar'><child>with some text</child></root>";

	let mut fp = FeedParser::default();
	let mut out = Vec::<ResolvedEvent>::new();
	let mut doc_buf = &doc[..];
	let result = as_eof_flag(fp.parse_all(&mut doc_buf, false, |ev| {
		out.push(ev);
	}));
	assert_eq!(result.unwrap(), false);

	{
		let mut iter = out.iter();
		match iter.next().unwrap() {
			ResolvedEvent::XMLDeclaration(em, XMLVersion::V1_0) => {
				assert_eq!(em.len(), 21);
			}
			other => panic!("unexpected event: {:?}", other),
		};
		match iter.next().unwrap() {
			ResolvedEvent::StartElement(em, (nsuri, localname), attrs) => {
				// note: 77 because of the \n between xml decl and whitespace. see also comment on EventMetrics
				assert_eq!(em.len(), 77);
				assert_eq!(
					nsuri.as_ref().unwrap().as_str(),
					"urn:uuid:fab98e86-7c09-477c-889c-0313d9877bb4"
				);
				assert_eq!(localname, "root");
				assert_eq!(attrs.len(), 2);
				assert_eq!(
					attrs.get(&(None, NCName::try_from("a").unwrap())).unwrap(),
					"foo"
				);
				assert_eq!(
					attrs.get(&(None, NCName::try_from("b").unwrap())).unwrap(),
					"bar"
				);
			}
			other => panic!("unexpected event: {:?}", other),
		};
		match iter.next().unwrap() {
			ResolvedEvent::StartElement(em, (nsuri, localname), attrs) => {
				assert_eq!(em.len(), 7);
				assert_eq!(
					nsuri.as_ref().unwrap().as_str(),
					"urn:uuid:fab98e86-7c09-477c-889c-0313d9877bb4"
				);
				assert_eq!(localname, "child");
				assert_eq!(attrs.len(), 0);
			}
			other => panic!("unexpected event: {:?}", other),
		};
		match iter.next().unwrap() {
			ResolvedEvent::Text(em, cdata) => {
				assert_eq!(em.len(), 14);
				assert_eq!(cdata, "with some text");
			}
			other => panic!("unexpected event: {:?}", other),
		};
		match iter.next().unwrap() {
			ResolvedEvent::EndElement(em) => {
				assert_eq!(em.len(), 8);
			}
			other => panic!("unexpected event: {:?}", other),
		};
		match iter.next().unwrap() {
			ResolvedEvent::EndElement(em) => {
				assert_eq!(em.len(), 7);
			}
			other => panic!("unexpected event: {:?}", other),
		};
	}

	let result = as_eof_flag(fp.parse_all(&mut doc_buf, true, |ev| {
		panic!("unexpected event: {:?}", ev)
	}));
	assert_eq!(result.unwrap(), true);
}

#[test]
fn feedparser_can_handle_chunked_input() {
	let doc = "<?xml version='1.0'?><root xmlns='urn:uuid:fab98e86-7c09-477c-889c-0313d9877bb4' a=\"foo\" b='bar'><child>with some text🐱😸😹😺😻😼😾😿🙀</child></root>".as_bytes();

	let mut fp = FeedParser::default();
	let mut out = Vec::<ResolvedEvent>::new();
	for mut chunk in doc.chunks(10) {
		loop {
			match fp.parse(&mut chunk, false) {
				Err(Error::IO(ioerr)) if ioerr.kind() == io::ErrorKind::WouldBlock => break,
				Err(other) => panic!("unexpected error: {:?}", other),
				Ok(Some(ev)) => out.push(ev),
				Ok(None) => break,
			}
		}
		assert_eq!(chunk.len(), 0);
	}

	{
		let mut iter = out.iter();
		match iter.next().unwrap() {
			ResolvedEvent::XMLDeclaration(em, XMLVersion::V1_0) => {
				assert_eq!(em.len(), 21);
			}
			other => panic!("unexpected event: {:?}", other),
		};
		match iter.next().unwrap() {
			ResolvedEvent::StartElement(em, (nsuri, localname), attrs) => {
				assert_eq!(em.len(), 76);
				assert_eq!(
					nsuri.as_ref().unwrap().as_str(),
					"urn:uuid:fab98e86-7c09-477c-889c-0313d9877bb4"
				);
				assert_eq!(localname, "root");
				assert_eq!(attrs.len(), 2);
				assert_eq!(
					attrs.get(&(None, NCName::try_from("a").unwrap())).unwrap(),
					"foo"
				);
				assert_eq!(
					attrs.get(&(None, NCName::try_from("b").unwrap())).unwrap(),
					"bar"
				);
			}
			other => panic!("unexpected event: {:?}", other),
		};
		match iter.next().unwrap() {
			ResolvedEvent::StartElement(em, (nsuri, localname), attrs) => {
				assert_eq!(em.len(), 7);
				assert_eq!(
					nsuri.as_ref().unwrap().as_str(),
					"urn:uuid:fab98e86-7c09-477c-889c-0313d9877bb4"
				);
				assert_eq!(localname, "child");
				assert_eq!(attrs.len(), 0);
			}
			other => panic!("unexpected event: {:?}", other),
		};
		match iter.next().unwrap() {
			ResolvedEvent::Text(em, cdata) => {
				assert_eq!(em.len(), 50);
				assert_eq!(cdata, "with some text🐱😸😹😺😻😼😾😿🙀");
			}
			other => panic!("unexpected event: {:?}", other),
		};
		match iter.next().unwrap() {
			ResolvedEvent::EndElement(em) => {
				assert_eq!(em.len(), 8);
			}
			other => panic!("unexpected event: {:?}", other),
		};
		match iter.next().unwrap() {
			ResolvedEvent::EndElement(em) => {
				assert_eq!(em.len(), 7);
			}
			other => panic!("unexpected event: {:?}", other),
		};
	}

	let result = as_eof_flag(fp.parse_all(&mut &[][..], true, |ev| {
		panic!("unexpected event: {:?}", ev)
	}));
	assert_eq!(result.unwrap(), true);
}

// note that this is just a smoketest... the components of the PullParser
// are tested extensively in the modules.
#[test]
fn pullparser_can_read_xml_document() {
	let mut doc = &b"<?xml version='1.0'?>\n<root xmlns='urn:uuid:fab98e86-7c09-477c-889c-0313d9877bb4' a=\"foo\" b='bar'><child>with some text</child></root>\n"[..];

	let mut pp = PullParser::new(&mut doc);
	let mut out = Vec::<ResolvedEvent>::new();
	let result = pp.read_all(|ev| {
		out.push(ev);
	});
	assert_eq!(result.unwrap(), ());

	{
		let mut iter = out.iter();
		match iter.next().unwrap() {
			ResolvedEvent::XMLDeclaration(em, XMLVersion::V1_0) => {
				assert_eq!(em.len(), 21);
			}
			other => panic!("unexpected event: {:?}", other),
		};
		match iter.next().unwrap() {
			ResolvedEvent::StartElement(em, (nsuri, localname), attrs) => {
				// note: 77 because of the \n between xml decl and whitespace. see also comment on EventMetrics
				assert_eq!(em.len(), 77);
				assert_eq!(
					nsuri.as_ref().unwrap().as_str(),
					"urn:uuid:fab98e86-7c09-477c-889c-0313d9877bb4"
				);
				assert_eq!(localname, "root");
				assert_eq!(attrs.len(), 2);
				assert_eq!(
					attrs.get(&(None, NCName::try_from("a").unwrap())).unwrap(),
					"foo"
				);
				assert_eq!(
					attrs.get(&(None, NCName::try_from("b").unwrap())).unwrap(),
					"bar"
				);
			}
			other => panic!("unexpected event: {:?}", other),
		};
		match iter.next().unwrap() {
			ResolvedEvent::StartElement(em, (nsuri, localname), attrs) => {
				assert_eq!(em.len(), 7);
				assert_eq!(
					nsuri.as_ref().unwrap().as_str(),
					"urn:uuid:fab98e86-7c09-477c-889c-0313d9877bb4"
				);
				assert_eq!(localname, "child");
				assert_eq!(attrs.len(), 0);
			}
			other => panic!("unexpected event: {:?}", other),
		};
		match iter.next().unwrap() {
			ResolvedEvent::Text(em, cdata) => {
				assert_eq!(em.len(), 14);
				assert_eq!(cdata, "with some text");
			}
			other => panic!("unexpected event: {:?}", other),
		};
		match iter.next().unwrap() {
			ResolvedEvent::EndElement(em) => {
				assert_eq!(em.len(), 8);
			}
			other => panic!("unexpected event: {:?}", other),
		};
		match iter.next().unwrap() {
			ResolvedEvent::EndElement(em) => {
				assert_eq!(em.len(), 7);
			}
			other => panic!("unexpected event: {:?}", other),
		};
	}
}


#[test]
fn prefix_declarations_end_with_their_element() {
	let doc = b"<root><a xmlns:p='urn:x'><p:b/></a><p:c/></root>";

	let mut fp = FeedParser::default();
	let mut out = Vec::<ResolvedEvent>::new();
	let mut doc_buf = &doc[..];
	let result = fp.parse_all(&mut doc_buf, true, |ev| {
		out.push(ev);
	});
	match result {
		Err(Error::NotNamespaceWellFormed(rxml::error::XmlError::UndeclaredNamespacePrefix(_))) => (),
		other => panic!("unexpected result: {:?}", other),
	}
	// the element inside the declaring element was resolved
	let mut found = false;
	for ev in out.iter() {
		if let ResolvedEvent::StartElement(_, (Some(ns), name), _) = ev {
			if name.as_str() == "b" {
				assert_eq!(ns.as_str(), "urn:x");
				found = true;
			}
		}
	}
	assert!(found);
}

#[test]
fn feedparser_repeats_fatal_error_without_consuming() {
	let mut fp = FeedParser::default();
	let mut doc_buf = &b"<a></b>"[..];
	let first = fp.parse_all(&mut doc_buf, false, |_| ());
	assert!(matches!(first, Err(Error::NotWellFormed(rxml::error::XmlError::ElementMismatch))));
	let mut more = &b"<c/>"[..];
	let second = fp.parse(&mut more, true);
	assert!(matches!(second, Err(Error::NotWellFormed(rxml::error::XmlError::ElementMismatch))));
	assert_eq!(more, &b"<c/>"[..]);
}

#[test]
fn feedparser_recovers_from_would_block() {
	let mut fp = FeedParser::default();
	let mut first = &b"<a>te"[..];
	let mut events = Vec::new();
	let r = fp.parse_all(&mut first, false, |ev| events.push(ev));
	assert!(matches!(r, Err(Error::IO(_))));
	assert_eq!(first.len(), 0);
	let mut second = &b"xt</a>"[..];
	let r = fp.parse_all(&mut second, true, |ev| events.push(ev));
	assert!(r.is_ok());
	assert!(matches!(events.last(), Some(ResolvedEvent::EndElement(_))));
}

#[test]
fn pullparser_repeats_fatal_error() {
	let mut src = &b"<a>&foo;</a>"[..];
	let mut pp = PullParser::new(&mut src);
	let first = pp.read_all(|_| ());
	assert!(matches!(first, Err(Error::NotWellFormed(_))));
	let second = pp.read();
	assert_eq!(first.err(), second.err());
}

#[test]
fn xml_declaration_with_standalone_but_no_encoding() {
	let doc = b"<?xml version='1.0' standalone='yes'?><a/>";
	let mut fp = FeedParser::default();
	let mut out = Vec::<ResolvedEvent>::new();
	let mut doc_buf = &doc[..];
	fp.parse_all(&mut doc_buf, true, |ev| out.push(ev)).unwrap();
	assert!(matches!(out[0], ResolvedEvent::XMLDeclaration(_, XMLVersion::V1_0)));
	assert!(matches!(out[1], ResolvedEvent::StartElement(..)));
}

#[test]
fn comments_are_restricted() {
	let doc = b"<a><!-- hi --></a>";
	let mut fp = FeedParser::default();
	let mut doc_buf = &doc[..];
	let r = fp.parse_all(&mut doc_buf, true, |_| ());
	assert!(matches!(r, Err(Error::RestrictedXml("comments"))));
}
