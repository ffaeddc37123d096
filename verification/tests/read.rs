//! Tests of the byte readers of the lexer.
use rxml::lexer::ranges::AnyByte;
use rxml::lexer::read::{read_validated_bytes, skip_matching_bytes, Endbyte};

#[test]
fn read_validated_bytes_limits() {
	let mut s1 = &b"foobar2342"[..];
	let mut out = Vec::new();
	let result = read_validated_bytes(&mut s1, &AnyByte(), 6, &mut out);
	assert!(matches!(result, Endbyte::Limit));
	assert_eq!(out, b"foobar".to_vec());
	assert_eq!(s1.len(), 4);
}

#[test]
fn read_validated_bytes_limits_by_bytes() {
	let mut s1 = &b"f\xc3\xb6\xc3\xb6b\xc3\xa4r2342"[..];
	let mut out = Vec::new();
	let result = read_validated_bytes(&mut s1, &AnyByte(), 6, &mut out);
	assert!(matches!(result, Endbyte::Limit));
	assert_eq!(out, "fööb".as_bytes().to_vec());
	assert_eq!(s1.len(), 7);
}

#[test]
fn read_validated_bytes_does_not_care_about_utf8() {
	let mut s1 = &b"f\xc3\xb6\xc3\xb6b\xc3\xa4r2342"[..];
	let mut out = Vec::new();
	let result = read_validated_bytes(&mut s1, &AnyByte(), 4, &mut out);
	match result {
		Endbyte::Limit => (),
		other => panic!("unexpected result: {:?}", other),
	}
	assert_eq!(out, b"f\xc3\xb6\xc3".to_vec());
	assert_eq!(out.len(), 4);
	assert_eq!(s1.len(), 9);
}

#[test]
fn read_validated_bytes_handles_eof() {
	let mut s1 = &b"foobar2342"[..];
	let mut out = Vec::new();
	let result = read_validated_bytes(&mut s1, &AnyByte(), 128, &mut out);
	match result {
		Endbyte::Eof => (),
		other => panic!("unexpected result: {:?}", other),
	}
	assert_eq!(out, b"foobar2342".to_vec());
	assert_eq!(s1.len(), 0);
}

#[test]
fn read_validated_bytes_returns_delimiter() {
	let mut s1 = &b"fffnord"[..];
	let mut out = Vec::new();
	let result = read_validated_bytes(&mut s1, &b'f', 128, &mut out);
	match result {
		Endbyte::Delimiter(b) if b == b'n' => (),
		other => panic!("unexpected result: {:?}", other),
	}
	assert_eq!(out, b"fff".to_vec());
	assert_eq!(s1.len(), 3);
}

#[test]
fn skip_matching_bytes_handles_eof() {
	let mut s1 = &b"foobar2342"[..];
	let (n, result) = skip_matching_bytes(&mut s1, &AnyByte());
	match result {
		Endbyte::Eof => (),
		other => panic!("unexpected result: {:?}", other),
	}
	assert_eq!(n, 10);
	assert_eq!(s1.len(), 0);
}

#[test]
fn skip_matching_bytes_returns_delimiter() {
	let mut s1 = &b"fffnord"[..];
	let (n, result) = skip_matching_bytes(&mut s1, &b'f');
	match result {
		Endbyte::Delimiter(b) if b == b'n' => (),
		other => panic!("unexpected result: {:?}", other),
	}
	assert_eq!(n, 3);
	assert_eq!(s1.len(), 3);
}

