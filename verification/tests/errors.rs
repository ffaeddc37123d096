use rxml::display::{hex_padded, hex_string};
use rxml::error::{Error, XmlError, ERRCTX_NAME, ERRCTX_TEXT};
use rxml::writer::EncodeError;

#[test]
fn hex_string_has_no_leading_zeros() {
	assert_eq!(hex_string(0), "0");
	assert_eq!(hex_string(15), "f");
	assert_eq!(hex_string(16), "10");
	assert_eq!(hex_string(0xdeadbeef), "deadbeef");
	assert_eq!(hex_string(u32::MAX), "ffffffff");
}

#[test]
fn hex_padded_pads_to_width() {
	assert_eq!(hex_padded(0x0a, 2), "0a");
	assert_eq!(hex_padded(0x1f600, 8), "0001f600");
	assert_eq!(hex_padded(0x123, 2), "123");
	assert_eq!(hex_padded(0, 0), "0");
}

#[test]
fn xml_error_messages() {
	assert_eq!(
		XmlError::InvalidEof(ERRCTX_TEXT).message(),
		"invalid eof in text node"
	);
	assert_eq!(
		XmlError::InvalidChar(ERRCTX_TEXT, 0x1, false).message(),
		"invalid codepoint U+1 in text node"
	);
	assert_eq!(
		XmlError::InvalidChar(ERRCTX_TEXT, 0xfffe, true).message(),
		"character reference expanded to invalid codepoint U+fffe in text node"
	);
	assert_eq!(
		XmlError::UnexpectedChar(ERRCTX_NAME, 'x', None).message(),
		"U+78 not allowed in name"
	);
	assert_eq!(
		XmlError::UnexpectedChar(ERRCTX_NAME, 'x', Some(&[])).message(),
		"U+78 not allowed in name"
	);
	assert_eq!(
		XmlError::UnexpectedChar(ERRCTX_NAME, 'x', Some(&["'='"])).message(),
		"U+78 not allowed in name (expected '=')"
	);
	assert_eq!(
		XmlError::UnexpectedByte(ERRCTX_NAME, 0xff, Some(&["a", "b", "c"])).message(),
		"0xff not allowed in name (expected one of: a, b, c)"
	);
	assert_eq!(
		XmlError::UnexpectedToken(ERRCTX_TEXT, "ElementFoot", Some(&["Text", "ElementHeadStart"])).message(),
		"unexpected ElementFoot token in text node (expected one of: Text, ElementHeadStart)"
	);
	assert_eq!(
		XmlError::MultiColonName(ERRCTX_NAME).message(),
		"more than one colon in name name"
	);
	assert_eq!(XmlError::DuplicateAttribute.message(), "duplicate attribute");
	assert_eq!(XmlError::EmptyNamespaceUri.message(), "namespace URI is empty");
}

#[test]
fn error_messages() {
	assert_eq!(Error::InvalidUtf8Byte(0x0a).message(), "invalid utf-8 byte: \\x0a");
	assert_eq!(Error::InvalidChar(0xd800).message(), "invalid char: U+0000d800");
	assert_eq!(
		Error::NotWellFormed(XmlError::ElementMismatch).message(),
		"xml error: start and end tag do not match"
	);
	assert_eq!(
		Error::NotNamespaceWellFormed(XmlError::ReservedNamespacePrefix).message(),
		"xml error: reserved namespace prefix"
	);
	assert_eq!(
		Error::RestrictedXml("comments").message(),
		"restricted xml: comments"
	);
	assert!(Error::would_block().message().starts_with("I/O error: "));
}

#[test]
fn encode_error_messages() {
	assert_eq!(EncodeError::NoOpenElement.message(), "no open element");
	assert_eq!(
		EncodeError::MisplacedXMLDeclaration.message(),
		"misplaced XML declaration"
	);
}

#[test]
fn eof_flag_of_results() {
	assert!(matches!(rxml::as_eof_flag(Ok(())), Ok(true)));
	assert!(matches!(rxml::as_eof_flag(Err(Error::would_block())), Ok(false)));
	assert!(matches!(
		rxml::as_eof_flag(Err(Error::io(std::io::Error::new(std::io::ErrorKind::Other, "broken")))),
		Err(Error::IO(_))
	));
	assert!(matches!(
		rxml::as_eof_flag(Err(Error::NotWellFormed(XmlError::ElementMismatch))),
		Err(Error::NotWellFormed(XmlError::ElementMismatch))
	));
}

#[test]
fn would_block_error_is_recognized() {
	assert!(Error::would_block().is_would_block());
	match Error::would_block() {
		Error::IO(e) => assert_eq!(e.kind(), std::io::ErrorKind::WouldBlock),
		_ => panic!("not an I/O error"),
	}
	let e = Error::io(std::io::Error::new(std::io::ErrorKind::WouldBlock, "later"));
	assert!(e.is_would_block());
	let e = Error::io(std::io::Error::new(std::io::ErrorKind::UnexpectedEof, "gone"));
	assert!(!e.is_would_block());
	assert!(!Error::InvalidChar(0).is_would_block());
}

#[test]
fn wrapped_io_error_is_kept() {
	match Error::io(std::io::Error::new(std::io::ErrorKind::NotFound, "missing")) {
		Error::IO(w) => {
			assert_eq!(w.kind(), std::io::ErrorKind::NotFound);
			assert_eq!(w.as_io_error().to_string(), "missing");
		}
		_ => panic!("not an I/O error"),
	}
}
