//! Tests of the namespace resolver.
use std::convert::TryInto;

use rxml::error::{Error, NWFError, Result, WFError, ERRCTX_ATTNAME, ERRCTX_NAME, ERRCTX_UNKNOWN};
use rxml::parser::{EventMetrics, NamespaceResolver, RawEvent, RcPtr, ResolvedEvent, XMLVersion};


fn dm() -> EventMetrics {
	EventMetrics::new(0)
}

fn resolve_all(mut evs: Vec<RawEvent>) -> (Vec<ResolvedEvent>, Result<()>) {
	let mut nsr = NamespaceResolver::new();
	let mut out = Vec::new();
	let mut iter = evs.drain(..);
	loop {
		match nsr.next(|| Ok(iter.next())) {
			Err(err) => return (out, Err(err)),
			Ok(Some(ev)) => out.push(ev),
			Ok(None) => return (out, Ok(())),
		}
	}
}

#[test]
fn namespace_resolver_passes_xml_decl() {
	let (evs, r) = resolve_all(vec![RawEvent::XMLDeclaration(
		EventMetrics::new(2342),
		XMLVersion::V1_0,
	)]);
	r.unwrap();
	let mut iter = evs.iter();
	match iter.next().unwrap() {
		ResolvedEvent::XMLDeclaration(em, v) => {
			assert_eq!(em.len(), 2342);
			assert_eq!(*v, XMLVersion::V1_0);
		}
		other => panic!("unexpected event: {:?}", other),
	}
	match iter.next() {
		None => (),
		other => panic!("unexpected event: {:?}", other),
	}
}

#[test]
fn namespace_resolver_aggregates_attributes_and_length() {
	let (evs, r) = resolve_all(vec![
		RawEvent::ElementHeadOpen(EventMetrics::new(2), (None, "root".try_into().unwrap())),
		RawEvent::Attribute(
			EventMetrics::new(3),
			(None, "a1".try_into().unwrap()),
			"v1".try_into().unwrap(),
		),
		RawEvent::Attribute(
			EventMetrics::new(4),
			(None, "a2".try_into().unwrap()),
			"v2".try_into().unwrap(),
		),
		RawEvent::ElementHeadClose(EventMetrics::new(5)),
		RawEvent::ElementFoot(EventMetrics::new(6)),
	]);
	r.unwrap();
	let mut iter = evs.iter();
	match iter.next().unwrap() {
		ResolvedEvent::StartElement(em, (nsuri, localpart), attrs) => {
			assert_eq!(em.len(), 14);
			assert!(nsuri.is_none());
			assert_eq!(localpart, "root");
			assert_eq!(attrs.get(&(None, "a1".try_into().unwrap())).unwrap(), "v1");
			assert_eq!(attrs.get(&(None, "a2".try_into().unwrap())).unwrap(), "v2");
			assert_eq!(attrs.len(), 2);
		}
		other => panic!("unexpected event: {:?}", other),
	}
	match iter.next().unwrap() {
		ResolvedEvent::EndElement(em) => {
			assert_eq!(em.len(), 6);
		}
		other => panic!("unexpected event: {:?}", other),
	}
	match iter.next() {
		None => (),
		other => panic!("unexpected event: {:?}", other),
	}
}

#[test]
fn namespace_resolver_passes_mixed_content() {
	let (evs, r) = resolve_all(vec![
		RawEvent::ElementHeadOpen(EventMetrics::new(1), (None, "root".try_into().unwrap())),
		RawEvent::ElementHeadClose(EventMetrics::new(2)),
		RawEvent::Text(EventMetrics::new(5), "Hello".try_into().unwrap()),
		RawEvent::ElementHeadOpen(EventMetrics::new(1), (None, "child".try_into().unwrap())),
		RawEvent::ElementHeadClose(EventMetrics::new(3)),
		RawEvent::Text(EventMetrics::new(6), "mixed".try_into().unwrap()),
		RawEvent::ElementFoot(EventMetrics::new(6)),
		RawEvent::Text(EventMetrics::new(7), "world!".try_into().unwrap()),
		RawEvent::ElementFoot(EventMetrics::new(8)),
	]);
	r.unwrap();
	let mut iter = evs.iter();
	match iter.next().unwrap() {
		ResolvedEvent::StartElement(em, (nsuri, localpart), attrs) => {
			assert_eq!(em.len(), 3);
			assert!(nsuri.is_none());
			assert_eq!(localpart, "root");
			assert_eq!(attrs.len(), 0);
		}
		other => panic!("unexpected event: {:?}", other),
	}
	match iter.next().unwrap() {
		ResolvedEvent::Text(em, text) => {
			assert_eq!(em.len(), 5);
			assert_eq!(text, "Hello");
		}
		other => panic!("unexpected event: {:?}", other),
	}
	match iter.next().unwrap() {
		ResolvedEvent::StartElement(em, (nsuri, localpart), attrs) => {
			assert_eq!(em.len(), 4);
			assert!(nsuri.is_none());
			assert_eq!(localpart, "child");
			assert_eq!(attrs.len(), 0);
		}
		other => panic!("unexpected event: {:?}", other),
	}
	match iter.next().unwrap() {
		ResolvedEvent::Text(em, text) => {
			assert_eq!(em.len(), 6);
			assert_eq!(text, "mixed");
		}
		other => panic!("unexpected event: {:?}", other),
	}
	match iter.next().unwrap() {
		ResolvedEvent::EndElement(em) => {
			assert_eq!(em.len(), 6);
		}
		other => panic!("unexpected event: {:?}", other),
	}
	match iter.next().unwrap() {
		ResolvedEvent::Text(em, text) => {
			assert_eq!(em.len(), 7);
			assert_eq!(text, "world!");
		}
		other => panic!("unexpected event: {:?}", other),
	}
	match iter.next().unwrap() {
		ResolvedEvent::EndElement(em) => {
			assert_eq!(em.len(), 8);
		}
		other => panic!("unexpected event: {:?}", other),
	}
	match iter.next() {
		None => (),
		other => panic!("unexpected event: {:?}", other),
	}
}

#[test]
fn namespace_resolver_rejects_duplicate_attribute_name() {
	let (evs, r) = resolve_all(vec![
		RawEvent::ElementHeadOpen(EventMetrics::new(2), (None, "root".try_into().unwrap())),
		RawEvent::Attribute(
			EventMetrics::new(3),
			(None, "a1".try_into().unwrap()),
			"v1".try_into().unwrap(),
		),
		RawEvent::Attribute(
			EventMetrics::new(4),
			(None, "a1".try_into().unwrap()),
			"v2".try_into().unwrap(),
		),
		RawEvent::ElementHeadClose(EventMetrics::new(5)),
		RawEvent::ElementFoot(EventMetrics::new(6)),
	]);
	match r {
		Err(Error::NotWellFormed(WFError::DuplicateAttribute)) => (),
		other => panic!("unexpected result: {:?}", other),
	}
	let mut iter = evs.iter();
	match iter.next() {
		None => (),
		other => panic!("unexpected event: {:?}", other),
	}
}

#[test]
fn namespace_resolver_returns_error_forever() {
	let pevs_invalid = vec![
		RawEvent::ElementHeadOpen(EventMetrics::new(2), (None, "root".try_into().unwrap())),
		RawEvent::Attribute(
			EventMetrics::new(3),
			(None, "a1".try_into().unwrap()),
			"v1".try_into().unwrap(),
		),
		RawEvent::Attribute(
			EventMetrics::new(4),
			(None, "a1".try_into().unwrap()),
			"v2".try_into().unwrap(),
		),
		RawEvent::ElementHeadClose(EventMetrics::new(5)),
		RawEvent::ElementFoot(EventMetrics::new(6)),
	];
	let pevs_valid = vec![
		RawEvent::ElementHeadOpen(EventMetrics::new(2), (None, "root".try_into().unwrap())),
		RawEvent::Attribute(
			EventMetrics::new(3),
			(None, "a1".try_into().unwrap()),
			"v1".try_into().unwrap(),
		),
		RawEvent::ElementHeadClose(EventMetrics::new(5)),
		RawEvent::ElementFoot(EventMetrics::new(6)),
	];
	let mut nsr = NamespaceResolver::new();
	{
		let mut iter = pevs_invalid.iter();
		match nsr.next(|| Ok(iter.next().cloned())) {
			Err(Error::NotWellFormed(WFError::DuplicateAttribute)) => (),
			other => panic!("unexpected result: {:?}", other),
		}
	}
	{
		let mut iter = pevs_valid.iter();
		match nsr.next(|| Ok(iter.next().cloned())) {
			Err(Error::NotWellFormed(WFError::DuplicateAttribute)) => (),
			other => panic!("unexpected result: {:?}", other),
		}
	}
}

#[test]
fn namespace_resolver_resolves_default_namespace_on_element() {
	let (evs, r) = resolve_all(vec![
		RawEvent::ElementHeadOpen(EventMetrics::new(2), (None, "root".try_into().unwrap())),
		RawEvent::Attribute(
			EventMetrics::new(3),
			(None, "a1".try_into().unwrap()),
			"v1".try_into().unwrap(),
		),
		RawEvent::Attribute(
			EventMetrics::new(4),
			(None, "xmlns".try_into().unwrap()),
			"foo".try_into().unwrap(),
		),
		RawEvent::ElementHeadClose(EventMetrics::new(5)),
		RawEvent::ElementFoot(EventMetrics::new(6)),
	]);
	r.unwrap();
	let mut iter = evs.iter();
	match iter.next().unwrap() {
		ResolvedEvent::StartElement(em, (nsuri, localpart), attrs) => {
			assert_eq!(em.len(), 14);
			assert_eq!(**nsuri.as_ref().unwrap(), "foo");
			assert_eq!(localpart, "root");
			assert_eq!(attrs.get(&(None, "a1".try_into().unwrap())).unwrap(), "v1");
			assert_eq!(attrs.len(), 1);
		}
		other => panic!("unexpected event: {:?}", other),
	}
	match iter.next().unwrap() {
		ResolvedEvent::EndElement(em) => {
			assert_eq!(em.len(), 6);
		}
		other => panic!("unexpected event: {:?}", other),
	}
	match iter.next() {
		None => (),
		other => panic!("unexpected event: {:?}", other),
	}
}

#[test]
fn namespace_resolver_resolves_prefixed_namespace_on_element() {
	let (evs, r) = resolve_all(vec![
		RawEvent::ElementHeadOpen(
			EventMetrics::new(2),
			(Some("foo".try_into().unwrap()), "root".try_into().unwrap()),
		),
		RawEvent::Attribute(
			EventMetrics::new(3),
			(None, "a1".try_into().unwrap()),
			"v1".try_into().unwrap(),
		),
		RawEvent::Attribute(
			EventMetrics::new(4),
			(Some("xmlns".try_into().unwrap()), "foo".try_into().unwrap()),
			"foo".try_into().unwrap(),
		),
		RawEvent::ElementHeadClose(EventMetrics::new(5)),
		RawEvent::ElementFoot(EventMetrics::new(6)),
	]);
	r.unwrap();
	let mut iter = evs.iter();
	match iter.next().unwrap() {
		ResolvedEvent::StartElement(em, (nsuri, localpart), attrs) => {
			assert_eq!(em.len(), 14);
			assert_eq!(**nsuri.as_ref().unwrap(), "foo");
			assert_eq!(localpart, "root");
			assert_eq!(attrs.get(&(None, "a1".try_into().unwrap())).unwrap(), "v1");
			assert_eq!(attrs.len(), 1);
		}
		other => panic!("unexpected event: {:?}", other),
	}
	match iter.next().unwrap() {
		ResolvedEvent::EndElement(em) => {
			assert_eq!(em.len(), 6);
		}
		other => panic!("unexpected event: {:?}", other),
	}
	match iter.next() {
		None => (),
		other => panic!("unexpected event: {:?}", other),
	}
}

#[test]
fn namespace_resolver_resolves_prefixed_namespace_on_attribute() {
	let (evs, r) = resolve_all(vec![
		RawEvent::ElementHeadOpen(EventMetrics::new(2), (None, "root".try_into().unwrap())),
		RawEvent::Attribute(
			EventMetrics::new(3),
			(Some("foo".try_into().unwrap()), "a1".try_into().unwrap()),
			"v1".try_into().unwrap(),
		),
		RawEvent::Attribute(
			EventMetrics::new(4),
			(Some("xmlns".try_into().unwrap()), "foo".try_into().unwrap()),
			"foo".try_into().unwrap(),
		),
		RawEvent::ElementHeadClose(EventMetrics::new(5)),
		RawEvent::ElementFoot(EventMetrics::new(6)),
	]);
	r.unwrap();
	let mut iter = evs.iter();
	match iter.next().unwrap() {
		ResolvedEvent::StartElement(em, (nsuri, localpart), attrs) => {
			assert_eq!(em.len(), 14);
			assert!(nsuri.is_none());
			assert_eq!(localpart, "root");
			assert_eq!(
				attrs
					.get(&(
						Some(RcPtr::new("foo".try_into().unwrap())),
						"a1".try_into().unwrap()
					))
					.unwrap(),
				"v1"
			);
			assert_eq!(attrs.len(), 1);
		}
		other => panic!("unexpected event: {:?}", other),
	}
	match iter.next().unwrap() {
		ResolvedEvent::EndElement(em) => {
			assert_eq!(em.len(), 6);
		}
		other => panic!("unexpected event: {:?}", other),
	}
	match iter.next() {
		None => (),
		other => panic!("unexpected event: {:?}", other),
	}
}

#[test]
fn namespace_resolver_resolves_prefixed_namespace_on_nested_elements() {
	let (evs, r) = resolve_all(vec![
		RawEvent::ElementHeadOpen(
			EventMetrics::new(2),
			(Some("x".try_into().unwrap()), "root".try_into().unwrap()),
		),
		RawEvent::Attribute(
			EventMetrics::new(3),
			(None, "a1".try_into().unwrap()),
			"v1".try_into().unwrap(),
		),
		RawEvent::Attribute(
			EventMetrics::new(4),
			(Some("xmlns".try_into().unwrap()), "x".try_into().unwrap()),
			"foo".try_into().unwrap(),
		),
		RawEvent::ElementHeadClose(EventMetrics::new(5)),
		RawEvent::ElementHeadOpen(
			EventMetrics::new(1),
			(Some("x".try_into().unwrap()), "child".try_into().unwrap()),
		),
		RawEvent::Attribute(
			EventMetrics::new(3),
			(Some("x".try_into().unwrap()), "a2".try_into().unwrap()),
			"v2".try_into().unwrap(),
		),
		RawEvent::ElementHeadClose(EventMetrics::new(2)),
		RawEvent::ElementFoot(EventMetrics::new(4)),
		RawEvent::ElementFoot(EventMetrics::new(6)),
	]);
	r.unwrap();
	let mut iter = evs.iter();
	match iter.next().unwrap() {
		ResolvedEvent::StartElement(em, (nsuri, localpart), attrs) => {
			assert_eq!(em.len(), 14);
			assert_eq!(**nsuri.as_ref().unwrap(), "foo");
			assert_eq!(localpart, "root");
			assert_eq!(attrs.get(&(None, "a1".try_into().unwrap())).unwrap(), "v1");
			assert_eq!(attrs.len(), 1);
		}
		other => panic!("unexpected event: {:?}", other),
	}
	match iter.next().unwrap() {
		ResolvedEvent::StartElement(em, (nsuri, localpart), attrs) => {
			assert_eq!(em.len(), 6);
			assert_eq!(**nsuri.as_ref().unwrap(), "foo");
			assert_eq!(localpart, "child");
			assert_eq!(
				attrs
					.get(&(
						Some(RcPtr::new("foo".try_into().unwrap())),
						"a2".try_into().unwrap()
					))
					.unwrap(),
				"v2"
			);
			assert_eq!(attrs.len(), 1);
		}
		other => panic!("unexpected event: {:?}", other),
	}
	match iter.next().unwrap() {
		ResolvedEvent::EndElement(em) => {
			assert_eq!(em.len(), 4);
		}
		other => panic!("unexpected event: {:?}", other),
	}
	match iter.next().unwrap() {
		ResolvedEvent::EndElement(em) => {
			assert_eq!(em.len(), 6);
		}
		other => panic!("unexpected event: {:?}", other),
	}
	match iter.next() {
		None => (),
		other => panic!("unexpected event: {:?}", other),
	}
}

#[test]
fn namespace_resolver_rejects_undeclared_prefix_in_element_name() {
	let (evs, r) = resolve_all(vec![
		RawEvent::ElementHeadOpen(
			EventMetrics::new(2),
			(Some("x".try_into().unwrap()), "root".try_into().unwrap()),
		),
		RawEvent::Attribute(
			EventMetrics::new(3),
			(None, "a1".try_into().unwrap()),
			"v1".try_into().unwrap(),
		),
		RawEvent::Attribute(
			EventMetrics::new(4),
			(Some("xmlns".try_into().unwrap()), "x".try_into().unwrap()),
			"foo".try_into().unwrap(),
		),
		RawEvent::ElementHeadClose(EventMetrics::new(5)),
		RawEvent::ElementHeadOpen(
			EventMetrics::new(1),
			(Some("foo".try_into().unwrap()), "child".try_into().unwrap()),
		),
		RawEvent::ElementHeadClose(EventMetrics::new(2)),
		RawEvent::ElementFoot(EventMetrics::new(4)),
		RawEvent::ElementFoot(EventMetrics::new(6)),
	]);
	let mut iter = evs.iter();
	match iter.next().unwrap() {
		ResolvedEvent::StartElement(em, (nsuri, localpart), attrs) => {
			assert_eq!(em.len(), 14);
			assert_eq!(**nsuri.as_ref().unwrap(), "foo");
			assert_eq!(localpart, "root");
			assert_eq!(attrs.get(&(None, "a1".try_into().unwrap())).unwrap(), "v1");
			assert_eq!(attrs.len(), 1);
		}
		other => panic!("unexpected event: {:?}", other),
	}
	match r {
		Err(Error::NotNamespaceWellFormed(NWFError::UndeclaredNamespacePrefix(
			ERRCTX_NAME,
		))) => (),
		other => panic!("unexpected result: {:?}", other),
	}
	match iter.next() {
		None => (),
		other => panic!("unexpected event: {:?}", other),
	}
}

#[test]
fn namespace_resolver_rejects_undeclared_prefix_in_attribute_name() {
	let (evs, r) = resolve_all(vec![
		RawEvent::ElementHeadOpen(
			EventMetrics::new(2),
			(Some("x".try_into().unwrap()), "root".try_into().unwrap()),
		),
		RawEvent::Attribute(
			EventMetrics::new(3),
			(None, "a1".try_into().unwrap()),
			"v1".try_into().unwrap(),
		),
		RawEvent::Attribute(
			EventMetrics::new(4),
			(Some("xmlns".try_into().unwrap()), "x".try_into().unwrap()),
			"foo".try_into().unwrap(),
		),
		RawEvent::ElementHeadClose(EventMetrics::new(5)),
		RawEvent::ElementHeadOpen(
			EventMetrics::new(1),
			(Some("x".try_into().unwrap()), "child".try_into().unwrap()),
		),
		RawEvent::Attribute(
			EventMetrics::new(3),
			(Some("foo".try_into().unwrap()), "a1".try_into().unwrap()),
			"v1".try_into().unwrap(),
		),
		RawEvent::ElementHeadClose(EventMetrics::new(2)),
		RawEvent::ElementFoot(EventMetrics::new(4)),
		RawEvent::ElementFoot(EventMetrics::new(6)),
	]);
	let mut iter = evs.iter();
	match iter.next().unwrap() {
		ResolvedEvent::StartElement(em, (nsuri, localpart), attrs) => {
			assert_eq!(em.len(), 14);
			assert_eq!(**nsuri.as_ref().unwrap(), "foo");
			assert_eq!(localpart, "root");
			assert_eq!(attrs.get(&(None, "a1".try_into().unwrap())).unwrap(), "v1");
			assert_eq!(attrs.len(), 1);
		}
		other => panic!("unexpected event: {:?}", other),
	}
	match r {
		Err(Error::NotNamespaceWellFormed(NWFError::UndeclaredNamespacePrefix(
			ERRCTX_ATTNAME,
		))) => (),
		other => panic!("unexpected result: {:?}", other),
	}
	match iter.next() {
		None => (),
		other => panic!("unexpected event: {:?}", other),
	}
}

#[test]
fn namespace_resolver_rejects_duplicate_attribute_post_namespace_resolution() {
	let (evs, r) = resolve_all(vec![
		RawEvent::ElementHeadOpen(dm(), (None, "root".try_into().unwrap())),
		RawEvent::Attribute(
			dm(),
			(Some("xmlns".try_into().unwrap()), "x".try_into().unwrap()),
			"foo".try_into().unwrap(),
		),
		RawEvent::Attribute(
			dm(),
			(Some("xmlns".try_into().unwrap()), "y".try_into().unwrap()),
			"foo".try_into().unwrap(),
		),
		RawEvent::ElementHeadClose(dm()),
		RawEvent::ElementHeadOpen(dm(), (None, "child".try_into().unwrap())),
		RawEvent::Attribute(
			dm(),
			(Some("x".try_into().unwrap()), "a1".try_into().unwrap()),
			"v1".try_into().unwrap(),
		),
		RawEvent::Attribute(
			dm(),
			(Some("y".try_into().unwrap()), "a1".try_into().unwrap()),
			"v1".try_into().unwrap(),
		),
		RawEvent::ElementHeadClose(dm()),
		RawEvent::ElementFoot(dm()),
		RawEvent::ElementFoot(dm()),
	]);
	let mut iter = evs.iter();
	match iter.next().unwrap() {
		ResolvedEvent::StartElement(_, (nsuri, localpart), attrs) => {
			assert!(nsuri.is_none());
			assert_eq!(localpart, "root");
			assert_eq!(attrs.len(), 0);
		}
		other => panic!("unexpected event: {:?}", other),
	}
	match r {
		Err(Error::NotWellFormed(WFError::DuplicateAttribute)) => (),
		other => panic!("unexpected result: {:?}", other),
	}
	match iter.next() {
		None => (),
		other => panic!("unexpected event: {:?}", other),
	}
}

#[test]
fn namespace_resolver_rejects_namespace_redeclaration_within_the_same_header() {
	let (evs, r) = resolve_all(vec![
		RawEvent::ElementHeadOpen(dm(), (None, "root".try_into().unwrap())),
		RawEvent::Attribute(
			dm(),
			(Some("xmlns".try_into().unwrap()), "x".try_into().unwrap()),
			"foo".try_into().unwrap(),
		),
		RawEvent::Attribute(
			dm(),
			(Some("xmlns".try_into().unwrap()), "x".try_into().unwrap()),
			"foo".try_into().unwrap(),
		),
		RawEvent::ElementHeadClose(dm()),
		RawEvent::ElementFoot(dm()),
	]);
	let mut iter = evs.iter();
	match r {
		Err(Error::NotWellFormed(WFError::DuplicateAttribute)) => (),
		other => panic!("unexpected result: {:?}", other),
	}
	match iter.next() {
		None => (),
		other => panic!("unexpected event: {:?}", other),
	}
}

#[test]
fn namespace_resolver_with_multiple_prefixes_and_rebinding() {
	let (evs, r) = resolve_all(vec![
		RawEvent::ElementHeadOpen(
			dm(),
			(Some("x".try_into().unwrap()), "root".try_into().unwrap()),
		),
		RawEvent::Attribute(
			dm(),
			(Some("xmlns".try_into().unwrap()), "x".try_into().unwrap()),
			"foo".try_into().unwrap(),
		),
		RawEvent::Attribute(
			dm(),
			(Some("xmlns".try_into().unwrap()), "y".try_into().unwrap()),
			"bar".try_into().unwrap(),
		),
		RawEvent::Attribute(
			dm(),
			(Some("x".try_into().unwrap()), "a".try_into().unwrap()),
			"v1".try_into().unwrap(),
		),
		RawEvent::Attribute(
			dm(),
			(Some("y".try_into().unwrap()), "a".try_into().unwrap()),
			"v2".try_into().unwrap(),
		),
		RawEvent::ElementHeadClose(dm()),
		RawEvent::ElementHeadOpen(
			dm(),
			(Some("y".try_into().unwrap()), "child".try_into().unwrap()),
		),
		RawEvent::Attribute(
			dm(),
			(Some("x".try_into().unwrap()), "a".try_into().unwrap()),
			"v1".try_into().unwrap(),
		),
		RawEvent::Attribute(
			dm(),
			(Some("y".try_into().unwrap()), "a".try_into().unwrap()),
			"v2".try_into().unwrap(),
		),
		RawEvent::Attribute(
			dm(),
			(Some("xmlns".try_into().unwrap()), "y".try_into().unwrap()),
			"baz".try_into().unwrap(),
		),
		RawEvent::ElementHeadClose(dm()),
		RawEvent::ElementFoot(dm()),
		RawEvent::ElementFoot(dm()),
	]);
	r.unwrap();
	let mut iter = evs.iter();
	match iter.next().unwrap() {
		ResolvedEvent::StartElement(_, (nsuri, localpart), attrs) => {
			assert_eq!(**nsuri.as_ref().unwrap(), "foo");
			assert_eq!(localpart, "root");
			assert_eq!(
				attrs
					.get(&(
						Some(RcPtr::new("foo".try_into().unwrap())),
						"a".try_into().unwrap()
					))
					.unwrap(),
				"v1"
			);
			assert_eq!(
				attrs
					.get(&(
						Some(RcPtr::new("bar".try_into().unwrap())),
						"a".try_into().unwrap()
					))
					.unwrap(),
				"v2"
			);
			assert_eq!(attrs.len(), 2);
		}
		other => panic!("unexpected event: {:?}", other),
	}
	match iter.next().unwrap() {
		ResolvedEvent::StartElement(_, (nsuri, localpart), attrs) => {
			assert_eq!(**nsuri.as_ref().unwrap(), "baz");
			assert_eq!(localpart, "child");
			assert_eq!(
				attrs
					.get(&(
						Some(RcPtr::new("foo".try_into().unwrap())),
						"a".try_into().unwrap()
					))
					.unwrap(),
				"v1"
			);
			assert_eq!(
				attrs
					.get(&(
						Some(RcPtr::new("baz".try_into().unwrap())),
						"a".try_into().unwrap()
					))
					.unwrap(),
				"v2"
			);
			assert_eq!(attrs.len(), 2);
		}
		other => panic!("unexpected event: {:?}", other),
	}
	match iter.next().unwrap() {
		ResolvedEvent::EndElement(_) => (),
		other => panic!("unexpected event: {:?}", other),
	}
	match iter.next().unwrap() {
		ResolvedEvent::EndElement(_) => (),
		other => panic!("unexpected event: {:?}", other),
	}
	match iter.next() {
		None => (),
		other => panic!("unexpected event: {:?}", other),
	}
}

