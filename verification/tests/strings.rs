//! Tests of the string types.
use std::convert::TryInto;

use rxml::error::XmlError;
use rxml::strings::{CData, CDataStr, Name, NCName};

#[test]
fn split_name_rejects_localname_with_non_namestart_first_char() {
    let nm: Name = "foo:-bar".try_into().unwrap();
    let result = nm.split_name();
    assert!(matches!(result.err().unwrap(), XmlError::InvalidLocalName(_)));
}

#[test]
fn cdatastr_allows_slashes() {
    let _: CDataStr = "http://www.w3.org/XML/1998/namespace".try_into().unwrap();
}

#[test]
fn split_name_splits_at_the_colon() {
    let nm: Name = "foo:bar".try_into().unwrap();
    let (prefix, local) = nm.split_name().unwrap();
    assert_eq!(prefix.unwrap(), "foo");
    assert_eq!(local, "bar");
    let nm: Name = "bar".try_into().unwrap();
    let (prefix, local) = nm.split_name().unwrap();
    assert!(prefix.is_none());
    assert_eq!(local, "bar");
}

#[test]
fn split_name_rejects_empty_parts_and_second_colon() {
    let nm: Name = ":bar".try_into().unwrap();
    assert!(matches!(nm.split_name().err().unwrap(), XmlError::EmptyNamePart(_)));
    let nm: Name = "foo:".try_into().unwrap();
    assert!(matches!(nm.split_name().err().unwrap(), XmlError::EmptyNamePart(_)));
    let nm: Name = "a:b:c".try_into().unwrap();
    assert!(matches!(nm.split_name().err().unwrap(), XmlError::MultiColonName(_)));
}

#[test]
fn with_suffix_joins_with_colon_and_split_undoes_it() {
    let p: NCName = "foo".try_into().unwrap();
    let l: NCName = "bar".try_into().unwrap();
    let joined = p.with_suffix(&l);
    assert_eq!(joined, "foo:bar");
    let (p2, l2) = joined.split_name().unwrap();
    assert_eq!(p2.unwrap(), p);
    assert_eq!(l2, l);
}

#[test]
fn string_types_reject_invalid_content() {
    assert!(Name::from_str("a b").is_err());
    assert!(NCName::from_str("a:b").is_err());
    assert!(CData::from_str("\u{1}").is_err());
    assert!(CData::from_str("").is_ok());
    let a: CData = "ab".try_into().unwrap();
    let b: CData = "cd".try_into().unwrap();
    assert_eq!(a + &b, "abcd");
}

#[test]
fn ncname_as_namestr_keeps_the_characters() {
	let n: NCName = "foo".try_into().unwrap();
	let name = n.as_namestr();
	assert_eq!(name.as_str(), "foo");
	assert_eq!(name.split_name().unwrap().0, None);
}
