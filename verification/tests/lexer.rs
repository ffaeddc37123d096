//! Tests of the lexer.
use std::convert::TryInto;
use std::error;
use std::fmt;
use std::io;

use rxml::error::{Error as CrateError, Result as CrateResult, WFError, ERRCTX_NAMESTART};
use rxml::lexer::{Lexer, LexerOptions, Sink, Token, TokenMetrics};

/// A byte source which is fed in chunks; it reports `WouldBlock` when it
/// is empty and the end of file has not been pushed.
struct BufferQueue {
    chunks: std::collections::VecDeque<Vec<u8>>,
    eof: bool,
}

impl BufferQueue {
    fn new() -> BufferQueue {
        BufferQueue { chunks: std::collections::VecDeque::new(), eof: false }
    }

    fn push<T: AsRef<[u8]>>(&mut self, data: T) {
        let data = data.as_ref();
        if data.len() > 0 {
            self.chunks.push_back(data.to_vec());
        }
    }

    fn push_eof(&mut self) {
        self.eof = true;
    }
}

impl io::Read for BufferQueue {
    fn read(&mut self, buf: &mut [u8]) -> io::Result<usize> {
        let n = {
            let src = io::BufRead::fill_buf(self)?;
            let n = src.len().min(buf.len());
            buf[..n].copy_from_slice(&src[..n]);
            n
        };
        io::BufRead::consume(self, n);
        Ok(n)
    }
}

impl io::BufRead for BufferQueue {
    fn fill_buf(&mut self) -> io::Result<&[u8]> {
        match self.chunks.front() {
            Some(c) => Ok(&c[..]),
            None => {
                if self.eof {
                    Ok(&[])
                } else {
                    Err(io::Error::new(io::ErrorKind::WouldBlock, "no data in queue"))
                }
            }
        }
    }

    fn consume(&mut self, amt: usize) {
        if amt == 0 {
            return;
        }
        let front = self.chunks.front_mut().unwrap();
        if amt >= front.len() {
            self.chunks.pop_front();
        } else {
            front.drain(..amt);
        }
    }
}


/// Lexing from a `std::io::BufRead`: one `fill_buf()`, the lexer on the
/// bytes it returns (an empty buffer is the end of the document; on
/// `WouldBlock` the lexer runs on an empty buffer without that flag), and
/// one `consume()` of the bytes the lexer used.
trait LexFromReader {
	fn lex<R: io::BufRead + ?Sized>(&mut self, r: &mut R) -> CrateResult<Option<Token>>;
}

impl LexFromReader for Lexer {
	fn lex<R: io::BufRead + ?Sized>(&mut self, r: &mut R) -> CrateResult<Option<Token>> {
		let (buf, eof): (Vec<u8>, bool) = match r.fill_buf() {
			Err(e) if e.kind() == io::ErrorKind::WouldBlock => (Vec::new(), false),
			Err(e) => return Err(CrateError::io(e)),
			Ok(b) => (b.to_vec(), b.len() == 0),
		};
		let mut data = &buf[..];
		let result = self.lex_bytes(&mut data, eof);
		let used = buf.len() - data.len();
		r.consume(used);
		result
	}
}

/// Stream tokens to the sink until the end of stream is reached.
fn stream_to_sink<'r, 's, 'l, R: io::BufRead, S: Sink>(l: &'l mut Lexer, r: &'r mut R, s: &'s mut S) -> CrateResult<()> {
	loop {
		match l.lex(r) {
			Ok(Some(tok)) => s.token(tok),
			Ok(None) => break,
			Err(CrateError::IO(e)) if e.kind() == io::ErrorKind::WouldBlock => {
				if let Ok(buf) = r.fill_buf() {
					if buf.len() > 0 {
						continue
					}
				}
				return Err(CrateError::IO(e))
			},
			Err(e) => return Err(e),
		}
	}
	Ok(())
}

fn stream_to_sink_from_bytes<'r, 's, 'l, R: io::BufRead, S: Sink>(l: &'l mut Lexer, r: &'r mut R, s: &'s mut S) -> CrateResult<()> {
	stream_to_sink(l, r, s)
}

struct VecSink {
	dest: Vec<Token>,
	limit: usize,
}

impl VecSink {
	fn new(limit: usize) -> VecSink {
		VecSink {
			dest: Vec::new(),
			limit: limit,
		}
	}
}

#[derive(Debug, Clone, PartialEq)]
struct VecSinkError(String);

impl fmt::Display for VecSinkError {
	fn fmt<'a>(&self, f: &'a mut fmt::Formatter) -> fmt::Result {
		f.write_str(self.0.as_str())
	}
}

impl error::Error for VecSinkError {
	fn source(&self) -> Option<&(dyn error::Error + 'static)> {
		None
	}
}

impl Sink for VecSink {
	type ErrorType = io::Error;

	fn token(&mut self, token: Token) {
		if self.dest.len() >= self.limit {
			panic!("token limit exceeded: {}", self.limit);
		}
		self.dest.push(token);
	}
}

fn lex(data: &[u8], token_limit: usize) -> (Vec<Token>, CrateResult<()>) {
	let mut buff = io::BufReader::new(data);
	let mut lexer = Lexer::new();
	let mut sink = VecSink::new(token_limit);
	let result = stream_to_sink(&mut lexer, &mut buff, &mut sink);
	(sink.dest, result)
}

fn lex_chunked(data: &[&[u8]], token_limit: usize) -> (Vec<Token>, CrateResult<()>) {
	let mut buff = BufferQueue::new();
	let mut lexer = Lexer::new();
	let mut sink = VecSink::new(token_limit);
	for chunk in data.iter() {
		buff.push(*chunk);
		match stream_to_sink(&mut lexer, &mut buff, &mut sink) {
			Ok(()) => panic!("unexpected end of tokens"),
			Err(CrateError::IO(ioerr)) if ioerr.kind() == io::ErrorKind::WouldBlock => (),
			Err(e) => return (sink.dest, Err(e)),
		}
	}
	buff.push_eof();
	let result = stream_to_sink(&mut lexer, &mut buff, &mut sink);
	(sink.dest, result)
}

fn lex_err(data: &[u8], token_limit: usize) -> Option<CrateError> {
	let (_, r) = lex(data, token_limit);
	r.err()
}

fn run_fuzz_test(data: &[u8], token_limit: usize) -> CrateResult<Vec<Token>> {
	let mut buff = io::BufReader::new(data);
	let mut lexer = Lexer::new();
	let mut sink = VecSink::new(token_limit);
	stream_to_sink(&mut lexer, &mut buff, &mut sink)?;
	Ok(sink.dest)
}

#[test]
fn lexer_lex_xml_decl_start() {
	let mut src = "<?xml".as_bytes();
	let mut lexer = Lexer::new();
	let mut sink = VecSink::new(128);
	stream_to_sink_from_bytes(&mut lexer, &mut src, &mut sink).err().unwrap();

	assert_eq!(sink.dest[0], Token::XMLDeclStart(TokenMetrics::new(0, 5)));
}

#[test]
fn lexer_lex_rejects_invalid_xml_decl_opener() {
	let mut src = "<?xmlversion".as_bytes();
	let mut lexer = Lexer::new();
	let mut sink = VecSink::new(128);
	let err = stream_to_sink_from_bytes(&mut lexer, &mut src, &mut sink).err().unwrap();
	assert!(!matches!(err, CrateError::NotWellFormed(WFError::InvalidEof(..))));

	assert_eq!(sink.dest[0], Token::XMLDeclStart(TokenMetrics::new(0, 5)));
	assert_eq!(sink.dest.len(), 1);
}

#[test]
fn lexer_lex_xml_decl_version_name() {
	let mut src = "<?xml version=".as_bytes();
	let mut lexer = Lexer::new();
	let mut sink = VecSink::new(128);
	stream_to_sink_from_bytes(&mut lexer, &mut src, &mut sink).err().unwrap();

	assert_eq!(sink.dest[1], Token::Name(TokenMetrics::new(6, 13), "version".try_into().unwrap()));
}

#[test]
fn lexer_lex_xml_decl_version_eq() {
	let mut src = "<?xml version=".as_bytes();
	let mut lexer = Lexer::new();
	let mut sink = VecSink::new(128);
	stream_to_sink_from_bytes(&mut lexer, &mut src, &mut sink).err().unwrap();

	assert_eq!(sink.dest[2], Token::Eq(TokenMetrics::new(13, 14)));
}

#[test]
fn lexer_lex_xml_decl_version_value_squot() {
	let mut src = "<?xml version='1.0'".as_bytes();
	let mut lexer = Lexer::new();
	let mut sink = VecSink::new(128);
	stream_to_sink_from_bytes(&mut lexer, &mut src, &mut sink).err().unwrap();

	assert_eq!(sink.dest[3], Token::AttributeValue(TokenMetrics::new(14, 19), "1.0".try_into().unwrap()));
}

#[test]
fn lexer_lex_xml_decl_version_value_dquot() {
	let mut src = "<?xml version=\"1.0\"".as_bytes();
	let mut lexer = Lexer::new();
	let mut sink = VecSink::new(128);
	stream_to_sink_from_bytes(&mut lexer, &mut src, &mut sink).err().unwrap();

	assert_eq!(sink.dest[3], Token::AttributeValue(TokenMetrics::new(14, 19), "1.0".try_into().unwrap()));
}

#[test]
fn lexer_lex_xml_decl_end() {
	let mut src = "<?xml version=\"1.0\"?>".as_bytes();
	let mut lexer = Lexer::new();
	let mut sink = VecSink::new(128);
	stream_to_sink_from_bytes(&mut lexer, &mut src, &mut sink).unwrap();

	assert_eq!(sink.dest[4], Token::XMLDeclEnd(TokenMetrics::new(19, 21)));
}

#[test]
fn lexer_lex_xml_decl_complete() {
	let mut src = "<?xml version=\"1.0\" encoding='utf-8'?>".as_bytes();
	let mut lexer = Lexer::new();
	let mut sink = VecSink::new(128);
	let result = stream_to_sink_from_bytes(&mut lexer, &mut src, &mut sink);

	assert!(result.is_ok());
	assert_eq!(sink.dest[0], Token::XMLDeclStart(TokenMetrics::new(0, 5)));
	assert_eq!(sink.dest[1], Token::Name(TokenMetrics::new(6, 13), "version".try_into().unwrap()));
	assert_eq!(sink.dest[2], Token::Eq(TokenMetrics::new(13, 14)));
	assert_eq!(sink.dest[3], Token::AttributeValue(TokenMetrics::new(14, 19), "1.0".try_into().unwrap()));
	assert_eq!(sink.dest[4], Token::Name(TokenMetrics::new(20, 28), "encoding".try_into().unwrap()));
	assert_eq!(sink.dest[5], Token::Eq(TokenMetrics::new(28, 29)));
	assert_eq!(sink.dest[6], Token::AttributeValue(TokenMetrics::new(29, 36), "utf-8".try_into().unwrap()));
	assert_eq!(sink.dest[7], Token::XMLDeclEnd(TokenMetrics::new(36, 38)));
}

#[test]
fn lexer_lex_element_start() {
	let mut src = &b"<element "[..];
	let mut lexer = Lexer::new();
	let mut sink = VecSink::new(128);
	stream_to_sink_from_bytes(&mut lexer, &mut src, &mut sink).err().unwrap();

	assert_eq!(sink.dest[0], Token::ElementHeadStart(TokenMetrics::new(0, 8), "element".try_into().unwrap()));
}

#[test]
fn lexer_lex_element_noattr_empty() {
	let mut src = &b"<element/>"[..];
	let mut lexer = Lexer::new();
	let mut sink = VecSink::new(128);
	stream_to_sink_from_bytes(&mut lexer, &mut src, &mut sink).unwrap();

	assert_eq!(sink.dest[0], Token::ElementHeadStart(TokenMetrics::new(0, 8), "element".try_into().unwrap()));
	assert_eq!(sink.dest[1], Token::ElementHeadClose(TokenMetrics::new(8, 10)));
}

#[test]
fn lexer_lex_element_noattr_open() {
	let mut src = &b"<element>"[..];
	let mut lexer = Lexer::new();
	let mut sink = VecSink::new(128);
	stream_to_sink_from_bytes(&mut lexer, &mut src, &mut sink).unwrap();

	assert_eq!(sink.dest[0], Token::ElementHeadStart(TokenMetrics::new(0, 8), "element".try_into().unwrap()));
	assert_eq!(sink.dest[1], Token::ElementHFEnd(TokenMetrics::new(8, 9)));
}

#[test]
fn lexer_lex_element_noattr_empty_explicit() {
	let mut src = &b"<element></element>"[..];
	let mut lexer = Lexer::new();
	let mut sink = VecSink::new(128);
	stream_to_sink_from_bytes(&mut lexer, &mut src, &mut sink).unwrap();

	assert_eq!(sink.dest[0], Token::ElementHeadStart(TokenMetrics::new(0, 8), "element".try_into().unwrap()));
	assert_eq!(sink.dest[1], Token::ElementHFEnd(TokenMetrics::new(8, 9)));
	assert_eq!(sink.dest[2], Token::ElementFootStart(TokenMetrics::new(9, 18), "element".try_into().unwrap()));
	assert_eq!(sink.dest[3], Token::ElementHFEnd(TokenMetrics::new(18, 19)));
}

#[test]
fn lexer_lex_element_attribute() {
	let mut src = &b"<element x='foo' y=\"bar\" xmlns='baz' xmlns:abc='fnord'>"[..];
	let mut lexer = Lexer::new();
	let mut sink = VecSink::new(128);
	stream_to_sink_from_bytes(&mut lexer, &mut src, &mut sink).unwrap();

	let mut iter = sink.dest.iter();
	assert!(matches!(iter.next().unwrap(), Token::ElementHeadStart(_, nm) if nm == "element"));
	assert_eq!(*iter.next().unwrap(), Token::Name(TokenMetrics::new(9, 10), "x".try_into().unwrap()));
	assert!(matches!(iter.next().unwrap(), Token::Eq(_)));
	assert_eq!(*iter.next().unwrap(), Token::AttributeValue(TokenMetrics::new(11, 16), "foo".try_into().unwrap()));
	assert_eq!(*iter.next().unwrap(), Token::Name(TokenMetrics::new(17, 18), "y".try_into().unwrap()));
	assert!(matches!(iter.next().unwrap(), Token::Eq(_)));
	assert_eq!(*iter.next().unwrap(), Token::AttributeValue(TokenMetrics::new(19, 24), "bar".try_into().unwrap()));
	assert_eq!(*iter.next().unwrap(), Token::Name(TokenMetrics::new(25, 30), "xmlns".try_into().unwrap()));
	assert!(matches!(iter.next().unwrap(), Token::Eq(_)));
	assert_eq!(*iter.next().unwrap(), Token::AttributeValue(TokenMetrics::new(31, 36), "baz".try_into().unwrap()));
	assert_eq!(*iter.next().unwrap(), Token::Name(TokenMetrics::new(37, 46), "xmlns:abc".try_into().unwrap()));
	assert!(matches!(iter.next().unwrap(), Token::Eq(_)));
	assert_eq!(*iter.next().unwrap(), Token::AttributeValue(TokenMetrics::new(47, 54), "fnord".try_into().unwrap()));
	assert_eq!(*iter.next().unwrap(), Token::ElementHFEnd(TokenMetrics::new(54, 55)));
}

#[test]
fn lexer_lex_text() {
	let mut src = &b"<root>Hello World!</root>"[..];
	let mut lexer = Lexer::new();
	let mut sink = VecSink::new(128);
	stream_to_sink_from_bytes(&mut lexer, &mut src, &mut sink).unwrap();

	let mut iter = sink.dest.iter();
	assert!(matches!(iter.next().unwrap(), Token::ElementHeadStart(_, nm) if nm == "root"));
	assert!(matches!(iter.next().unwrap(), Token::ElementHFEnd(_)));
	assert_eq!(*iter.next().unwrap(), Token::Text(TokenMetrics::new(6, 18), "Hello World!".try_into().unwrap()));
	assert!(matches!(iter.next().unwrap(), Token::ElementFootStart(_, nm) if nm == "root"));
	assert!(matches!(iter.next().unwrap(), Token::ElementHFEnd(_)));
}

#[test]
fn lexer_lex_amp() {
	let mut src = &b"<root>&amp;</root>"[..];
	let mut lexer = Lexer::new();
	let mut sink = VecSink::new(128);
	stream_to_sink_from_bytes(&mut lexer, &mut src, &mut sink).unwrap();

	let mut iter = sink.dest.iter();
	assert!(matches!(iter.next().unwrap(), Token::ElementHeadStart(_, nm) if nm == "root"));
	assert!(matches!(iter.next().unwrap(), Token::ElementHFEnd(tm) if *tm == TokenMetrics::new(5, 6)));
	assert_eq!(*iter.next().unwrap(), Token::Text(TokenMetrics::new(6, 11), "&".try_into().unwrap()));
	assert!(matches!(iter.next().unwrap(), Token::ElementFootStart(tm, nm) if *tm == TokenMetrics::new(11, 17) && nm == "root"));
	assert!(matches!(iter.next().unwrap(), Token::ElementHFEnd(_)));
}

#[test]
fn lexer_lex_decimal_charref() {
	let mut src = &b"<root>&#60;</root>"[..];
	let mut lexer = Lexer::new();
	let mut sink = VecSink::new(128);
	stream_to_sink_from_bytes(&mut lexer, &mut src, &mut sink).unwrap();

	let mut iter = sink.dest.iter();
	assert!(matches!(iter.next().unwrap(), Token::ElementHeadStart(_, nm) if nm == "root"));
	assert!(matches!(iter.next().unwrap(), Token::ElementHFEnd(tm) if *tm == TokenMetrics::new(5, 6)));
	assert_eq!(*iter.next().unwrap(), Token::Text(TokenMetrics::new(6, 11), "<".try_into().unwrap()));
	assert!(matches!(iter.next().unwrap(), Token::ElementFootStart(tm, nm) if *tm == TokenMetrics::new(11, 17) && nm == "root"));
	assert!(matches!(iter.next().unwrap(), Token::ElementHFEnd(_)));
}

#[test]
fn lexer_lex_hexadecimal_charref() {
	let mut src = &b"<root>&#x3e;</root>"[..];
	let mut lexer = Lexer::new();
	let mut sink = VecSink::new(128);
	stream_to_sink_from_bytes(&mut lexer, &mut src, &mut sink).unwrap();

	let mut iter = sink.dest.iter();
	assert!(matches!(iter.next().unwrap(), Token::ElementHeadStart(_, nm) if nm == "root"));
	assert!(matches!(iter.next().unwrap(), Token::ElementHFEnd(tm) if *tm == TokenMetrics::new(5, 6)));
	assert_eq!(*iter.next().unwrap(), Token::Text(TokenMetrics::new(6, 12), ">".try_into().unwrap()));
	assert!(matches!(iter.next().unwrap(), Token::ElementFootStart(tm, nm) if *tm == TokenMetrics::new(12, 18) && nm == "root"));
	assert!(matches!(iter.next().unwrap(), Token::ElementHFEnd(_)));
}

fn collect_texts<'x, T: Iterator<Item = &'x Token>>(iter: &'x mut T) -> (String, usize, usize, Option<&'x Token>) {
	let mut texts: Vec<String> = Vec::new();
	let mut start = 0;
	let mut had_start = false;
	let mut end = 0;
	let mut token: Option<&'x Token> = None;
	for tok in iter {
		match tok {
			Token::Text(metrics, t) => {
				if !had_start {
					start = metrics.start();
					had_start = true;
				} else {
					// text nodes must always be consecutive
					assert_eq!(metrics.start(), end);
				}
				end = metrics.end();
				texts.push(t.to_string());
			},
			other => {
				token = Some(other);
				break;
			},
		}
	}
	let text = texts.join("");
	return (text, start, end, token)
}

#[test]
fn lexer_lex_mixed_text_entities() {
	let mut src = &b"<root>&#60;example foo=&quot;bar&quot; baz=&apos;fnord&apos;/&gt;</root>"[..];
	let mut lexer = Lexer::new();
	let mut sink = VecSink::new(128);
	stream_to_sink_from_bytes(&mut lexer, &mut src, &mut sink).unwrap();

	let mut iter = sink.dest.iter();
	assert!(matches!(iter.next().unwrap(), Token::ElementHeadStart(_, nm) if nm == "root"));
	assert!(matches!(iter.next().unwrap(), Token::ElementHFEnd(tm) if *tm == TokenMetrics::new(5, 6)));

	let (text, start, end, _) = collect_texts(&mut iter);

	assert_eq!(start, 6);
	assert_eq!(end, 65);
	assert_eq!(text, "<example foo=\"bar\" baz='fnord'/>");
}

#[test]
fn lexer_lex_reject_charref_with_invalid_cdata() {
	let mut src = &b"<root>&#x00;</root>"[..];
	let mut lexer = Lexer::new();
	let mut sink = VecSink::new(128);
	let result = stream_to_sink_from_bytes(&mut lexer, &mut src, &mut sink);
	assert!(matches!(result, Err(CrateError::NotWellFormed(_))));
}

#[test]
fn lexer_lex_attribute_amp() {
	let mut src = &b"<root foo='&amp;'>"[..];
	let mut lexer = Lexer::new();
	let mut sink = VecSink::new(128);
	stream_to_sink_from_bytes(&mut lexer, &mut src, &mut sink).unwrap();

	let mut iter = sink.dest.iter();
	iter.next().unwrap();
	iter.next().unwrap();
	assert_eq!(*iter.next().unwrap(), Token::Eq(TokenMetrics::new(9, 10)));
	assert_eq!(*iter.next().unwrap(), Token::AttributeValue(TokenMetrics::new(10, 17), "&".try_into().unwrap()));
}

#[test]
fn lexer_lex_attribute_mixed_with_entities() {
	let mut src = &b"<root foo='&#60;example foo=&quot;bar&quot; baz=&apos;fnord&apos;/&gt;'>"[..];
	let mut lexer = Lexer::new();
	let mut sink = VecSink::new(128);
	stream_to_sink_from_bytes(&mut lexer, &mut src, &mut sink).unwrap();

	let mut iter = sink.dest.iter();
	iter.next().unwrap();
	iter.next().unwrap();
	assert_eq!(*iter.next().unwrap(), Token::Eq(TokenMetrics::new(9, 10)));
	assert_eq!(*iter.next().unwrap(), Token::AttributeValue(TokenMetrics::new(10, 71), "<example foo=\"bar\" baz='fnord'/>".try_into().unwrap()));
}

#[test]
fn lexer_lex_cdata_section() {
	let mut src = &b"<root><![CDATA[<example foo=\"bar\" baz='fnord'/>]]></root>"[..];
	let mut lexer = Lexer::new();
	let mut sink = VecSink::new(128);
	stream_to_sink_from_bytes(&mut lexer, &mut src, &mut sink).unwrap();

	let mut iter = sink.dest.iter();
	iter.next().unwrap();
	assert_eq!(*iter.next().unwrap(), Token::ElementHFEnd(TokenMetrics::new(5, 6)));
	assert_eq!(*iter.next().unwrap(), Token::Text(TokenMetrics::new(6, 50), "<example foo=\"bar\" baz='fnord'/>".try_into().unwrap()));
	assert_eq!(*iter.next().unwrap(), Token::ElementFootStart(TokenMetrics::new(50, 56), "root".try_into().unwrap()));
	iter.next().unwrap();
}

#[test]
fn lexer_lex_cdata_section_degenerate() {
	let mut src = &b"<root><![CDATA[]]></root>"[..];
	let mut lexer = Lexer::new();
	let mut sink = VecSink::new(128);
	stream_to_sink_from_bytes(&mut lexer, &mut src, &mut sink).unwrap();

	let mut iter = sink.dest.iter();
	iter.next().unwrap();
	assert_eq!(*iter.next().unwrap(), Token::ElementHFEnd(TokenMetrics::new(5, 6)));
	assert_eq!(*iter.next().unwrap(), Token::ElementFootStart(TokenMetrics::new(18, 24), "root".try_into().unwrap()));
	iter.next().unwrap();
}

#[test]
fn lexer_lex_cdata_section_mixed() {
	let mut src = &b"<root>foobar <![CDATA[Hello <fun>]]</fun>&amp;games world!]]> </root>"[..];
	let mut lexer = Lexer::new();
	let mut sink = VecSink::new(128);
	stream_to_sink_from_bytes(&mut lexer, &mut src, &mut sink).unwrap();

	let mut iter = sink.dest.iter();
	iter.next().unwrap();
	assert_eq!(*iter.next().unwrap(), Token::ElementHFEnd(TokenMetrics::new(5, 6)));

	let (text, start, end, next) = collect_texts(&mut iter);

	assert_eq!(start, 6);
	assert_eq!(end, 62);
	assert_eq!(text, "foobar Hello <fun>]]</fun>&amp;games world! ");
	assert_eq!(next.unwrap().metrics().start(), 62);
}

#[test]
fn lexer_lex_restrict_element_name_by_token_length() {
	let src = &b"<foobar2342/>"[..];
	let mut buffered = io::BufReader::with_capacity(1, src);
	let mut lexer = Lexer::with_options(LexerOptions::default().max_token_length(6));
	let mut sink = VecSink::new(128);
	let result = stream_to_sink_from_bytes(&mut lexer, &mut buffered, &mut sink);

	assert!(matches!(result, Err(CrateError::RestrictedXml(_))));
}

#[test]
fn lexer_lex_restrict_attribute_name_by_token_length() {
	let src = &b"<a foobar2342='foo'/>"[..];
	let mut buffered = io::BufReader::with_capacity(1, src);
	let mut lexer = Lexer::with_options(LexerOptions::default().max_token_length(6));
	let mut sink = VecSink::new(128);
	let result = stream_to_sink_from_bytes(&mut lexer, &mut buffered, &mut sink);

	assert!(matches!(result, Err(CrateError::RestrictedXml(_))));
}

#[test]
fn lexer_lex_restrict_attribute_value_by_token_length() {
	let src = &b"<a b='foobar2342'/>"[..];
	let mut buffered = io::BufReader::with_capacity(1, src);
	let mut lexer = Lexer::with_options(LexerOptions::default().max_token_length(6));
	let mut sink = VecSink::new(128);
	let result = stream_to_sink_from_bytes(&mut lexer, &mut buffered, &mut sink);

	assert!(matches!(result, Err(CrateError::RestrictedXml(_))));
}

#[test]
fn lexer_lex_restrict_attribute_value_by_token_length_even_with_entities() {
	let src = &b"<a b='foob&amp;rx'/>"[..];
	let mut buffered = io::BufReader::with_capacity(1, src);
	let mut lexer = Lexer::with_options(LexerOptions::default().max_token_length(6));
	let mut sink = VecSink::new(128);
	let result = stream_to_sink_from_bytes(&mut lexer, &mut buffered, &mut sink);
	match result {
		Err(CrateError::RestrictedXml(_)) => (),
		other => panic!("unexpected result: {:?}", other),
	};
}

#[test]
fn lexer_lex_attribute_value_entities_do_only_count_for_expansion() {
	let src = &b"<a b='foob&amp;'/>"[..];
	let mut buffered = io::BufReader::with_capacity(1, src);
	let mut lexer = Lexer::with_options(LexerOptions::default().max_token_length(6));
	let mut sink = VecSink::new(128);
	stream_to_sink_from_bytes(&mut lexer, &mut buffered, &mut sink).unwrap();
}

#[test]
fn lexer_lex_token_length_causes_text_nodes_to_be_split() {
	let src = &b"<a>foo001foo002foo003</a>"[..];
	let mut buffered = io::BufReader::with_capacity(1, src);
	let mut lexer = Lexer::with_options(LexerOptions::default().max_token_length(6));
	let mut sink = VecSink::new(128);
	stream_to_sink_from_bytes(&mut lexer, &mut buffered, &mut sink).unwrap();

	let mut iter = sink.dest.iter();
	iter.next().unwrap();
	assert_eq!(*iter.next().unwrap(), Token::ElementHFEnd(TokenMetrics::new(2, 3)));
	assert_eq!(*iter.next().unwrap(), Token::Text(TokenMetrics::new(3, 9), "foo001".try_into().unwrap()));
	assert_eq!(*iter.next().unwrap(), Token::Text(TokenMetrics::new(9, 15), "foo002".try_into().unwrap()));
	assert_eq!(*iter.next().unwrap(), Token::Text(TokenMetrics::new(15, 21), "foo003".try_into().unwrap()));
	assert_eq!(*iter.next().unwrap(), Token::ElementFootStart(TokenMetrics::new(21, 24), "a".try_into().unwrap()));
	iter.next().unwrap();
}

#[test]
fn lexer_handles_broken_numeric_entity_correctly() {
	// trimmed testcase, found by afl
	let src = &b"&#;"[..];
	let result = run_fuzz_test(src, 128);
	assert!(result.is_err());
}

#[test]
fn lexer_limits_decimal_entities() {
	let src = &b"&#9999999999;"[..];
	let result = run_fuzz_test(src, 128);
	assert!(result.is_err());
}

#[test]
fn lexer_limits_hexadecimal_entities() {
	let src = &b"&#x9999999999;"[..];
	let result = run_fuzz_test(src, 128);
	assert!(result.is_err());
}

#[test]
fn lexer_rejects_invalid_namestarts() {
	let err = lex_err(b"<123/>", 128).unwrap();
	match err {
		CrateError::NotWellFormed(WFError::UnexpectedByte(..)) => (),
		other => panic!("unexpected error: {:?}", other),
	}

	let err = lex_err(b"<'foo/>", 128).unwrap();
	match err {
		CrateError::NotWellFormed(WFError::UnexpectedByte(..)) => (),
		other => panic!("unexpected error: {:?}", other),
	}

	let err = lex_err(b"<.bar/>", 128).unwrap();
	match err {
		CrateError::NotWellFormed(WFError::UnexpectedByte(..)) => (),
		other => panic!("unexpected error: {:?}", other),
	}
}

#[test]
fn lexer_rejects_invalid_names() {
	let err = lex_err(b"<foo#/>", 128).unwrap();
	match err {
		CrateError::NotWellFormed(WFError::UnexpectedByte(..)) => (),
		other => panic!("unexpected error: {:?}", other),
	}

	let err = lex_err(b"<f\\a/>", 128).unwrap();
	match err {
		CrateError::NotWellFormed(WFError::UnexpectedByte(..)) => (),
		other => panic!("unexpected error: {:?}", other),
	}
}

#[test]
fn lexer_rejects_undeclared_or_invalid_references() {
	let err = lex_err(b"&123;", 128).unwrap();
	assert!(matches!(err, CrateError::NotWellFormed(WFError::UndeclaredEntity)));

	let err = lex_err(b"&foobar;", 128).unwrap();
	assert!(matches!(err, CrateError::NotWellFormed(WFError::UndeclaredEntity)));

	let err = lex_err(b"&?;", 128).unwrap();
	assert!(matches!(err, CrateError::NotWellFormed(WFError::UnexpectedByte(_, b'?', _))));
}

#[test]
fn lexer_rejects_non_scalar_char_refs() {
	let err = lex_err(b"&#x110000;", 128).unwrap();
	assert!(matches!(err, CrateError::NotWellFormed(WFError::InvalidChar(_, _, true))));
}

#[test]
fn lexer_rejects_non_xml_10_chars_via_refs_in_text() {
	let err = lex_err(b"&#x00;", 128).unwrap();
	assert!(matches!(err, CrateError::NotWellFormed(WFError::InvalidChar(_, _, true))));

	let err = lex_err(b"&#x1f;", 128).unwrap();
	assert!(matches!(err, CrateError::NotWellFormed(WFError::InvalidChar(_, _, true))));
}

#[test]
fn lexer_rejects_non_xml_10_chars_via_refs_in_attrs() {
	let err = lex_err(b"<a foo='&#x00;'/>", 128).unwrap();
	assert!(matches!(err, CrateError::NotWellFormed(WFError::InvalidChar(_, _, true))));

	let err = lex_err(b"<a foo='&#x1f;'/>", 128).unwrap();
	assert!(matches!(err, CrateError::NotWellFormed(WFError::InvalidChar(_, _, true))));
}

#[test]
fn lexer_rejects_non_xml_10_chars_verbatim_in_text() {
	let err = lex_err(b"\x00", 128).unwrap();
	assert!(matches!(err, CrateError::NotWellFormed(WFError::InvalidChar(_, _, false))));

	let err = lex_err(b"\x1f", 128).unwrap();
	assert!(matches!(err, CrateError::NotWellFormed(WFError::InvalidChar(_, _, false))));
}

#[test]
fn lexer_rejects_non_xml_10_chars_verbatim_in_attrs() {
	let err = lex_err(b"<a foo='\x00'/>", 128).unwrap();
	assert!(matches!(err, CrateError::NotWellFormed(WFError::InvalidChar(_, _, false))));

	let err = lex_err(b"<a foo='\x1f'/>", 128).unwrap();
	assert!(matches!(err, CrateError::NotWellFormed(WFError::InvalidChar(_, _, false))));
}

#[test]
fn lexer_re_emits_error_on_next_call() {
	let src = &b"<a>\x00</a>"[..];
	let mut buffered = io::BufReader::with_capacity(1, src);
	let mut lexer = Lexer::new();
	let mut sink = VecSink::new(128);
	let e1 = stream_to_sink_from_bytes(&mut lexer, &mut buffered, &mut sink).err().unwrap();
	let e2 = stream_to_sink_from_bytes(&mut lexer, &mut buffered, &mut sink).err().unwrap();
	assert_eq!(e1, e2);

	let mut iter = sink.dest.iter();
	assert!(matches!(iter.next().unwrap(), Token::ElementHeadStart(_, nm) if nm == "a"));
	assert!(matches!(iter.next().unwrap(), Token::ElementHFEnd(_)));
	assert!(iter.next().is_none());
}

#[test]
fn lexer_handles_closing_brackets_in_cdata_section() {
	let mut src = &b"<a><![CDATA[]]]></a>"[..];
	let mut lexer = Lexer::with_options(LexerOptions::default().max_token_length(6));
	let mut sink = VecSink::new(128);
	stream_to_sink_from_bytes(&mut lexer, &mut src, &mut sink).unwrap();

	let mut iter = sink.dest.iter();
	iter.next().unwrap();
	assert_eq!(*iter.next().unwrap(), Token::ElementHFEnd(TokenMetrics::new(2, 3)));	assert_eq!(*iter.next().unwrap(), Token::Text(TokenMetrics::new(3, 16), "]".try_into().unwrap()));
	assert_eq!(*iter.next().unwrap(), Token::ElementFootStart(TokenMetrics::new(16, 19), "a".try_into().unwrap()));
	iter.next().unwrap();
}

#[test]
fn lexer_recovers_from_wouldblock() {
	let seq = &b"<?xml version='1.0'?>"[..];
	let mut r = BufferQueue::new();
	let mut lexer = Lexer::new();
	let mut sink: Vec<Token> = Vec::new();
	for chunk in seq.chunks(5) {
		r.push(std::borrow::Cow::from(chunk));
		loop {
			match lexer.lex(&mut r) {
				Err(CrateError::IO(ioerr)) if ioerr.kind() == io::ErrorKind::WouldBlock => break,
				Err(other) => panic!("unexpected error: {:?}", other),
				Ok(None) => panic!("unexpected eof signal: {:?}", lexer),
				Ok(Some(tok)) => sink.push(tok),
			}
		}
	}

	let mut iter = sink.iter();
	assert_eq!(*iter.next().unwrap(), Token::XMLDeclStart(TokenMetrics::new(0, 5)));
	assert_eq!(*iter.next().unwrap(), Token::Name(TokenMetrics::new(6, 13), "version".try_into().unwrap()));
	assert_eq!(*iter.next().unwrap(), Token::Eq(TokenMetrics::new(13, 14)));
	assert_eq!(*iter.next().unwrap(), Token::AttributeValue(TokenMetrics::new(14, 19), "1.0".try_into().unwrap()));
	assert_eq!(*iter.next().unwrap(), Token::XMLDeclEnd(TokenMetrics::new(19, 21)));
}

#[test]
fn lexer_recovers_from_wouldblock_within_long_whitespace_with_correct_counting() {
	let seq = &b"<?xml   version  =  '1.0'  ?>"[..];
	let mut r = BufferQueue::new();
	let mut lexer = Lexer::new();
	let mut sink: Vec<Token> = Vec::new();
	for chunk in seq.chunks(5) {
		r.push(std::borrow::Cow::from(chunk));
		loop {
			match lexer.lex(&mut r) {
				Err(CrateError::IO(ioerr)) if ioerr.kind() == io::ErrorKind::WouldBlock => break,
				Err(other) => panic!("unexpected error: {:?}", other),
				Ok(None) => panic!("unexpected eof signal: {:?}", lexer),
				Ok(Some(tok)) => sink.push(tok),
			}
		}
	}

	let mut iter = sink.iter();
	assert_eq!(*iter.next().unwrap(), Token::XMLDeclStart(TokenMetrics::new(0, 5)));
	assert_eq!(*iter.next().unwrap(), Token::Name(TokenMetrics::new(8, 15), "version".try_into().unwrap()));
	assert_eq!(*iter.next().unwrap(), Token::Eq(TokenMetrics::new(17, 18)));
	assert_eq!(*iter.next().unwrap(), Token::AttributeValue(TokenMetrics::new(20, 25), "1.0".try_into().unwrap()));
	assert_eq!(*iter.next().unwrap(), Token::XMLDeclEnd(TokenMetrics::new(27, 29)));
}

#[test]
fn lexer_rejects_missing_whitespace_between_attrvalue_and_attrname() {
	let err = lex_err(b"<a a='x'b='y'/>", 128).unwrap();
	assert!(matches!(err, CrateError::NotWellFormed(WFError::InvalidSyntax(_))));
}

#[test]
fn lexer_rejects_nonchar_in_cdata_section() {
	let err = lex_err(b"<a><![CDATA[\x00]]></a>", 128).unwrap();
	assert!(matches!(err, CrateError::NotWellFormed(WFError::InvalidChar(_, 0u32, false))));

	let err = lex_err(b"<a><![CDATA[]\x00]]></a>", 128).unwrap();
	assert!(matches!(err, CrateError::NotWellFormed(WFError::InvalidChar(_, 0u32, false))));

	let err = lex_err(b"<a><![CDATA[]]\x00]]></a>", 128).unwrap();
	assert!(matches!(err, CrateError::NotWellFormed(WFError::InvalidChar(_, 0u32, false))));
}

#[test]
fn lexer_rejects_cdata_end_in_text() {
	let err = lex_err(b"<a>]]></a>", 128).unwrap();
	assert!(matches!(err, CrateError::NotWellFormed(WFError::InvalidSyntax(_))));

	let err = lex_err(b"<a>]]]></a>", 128).unwrap();
	assert!(matches!(err, CrateError::NotWellFormed(WFError::InvalidSyntax(_))));

	let err = lex_err(b"<a>]]]]></a>", 128).unwrap();
	assert!(matches!(err, CrateError::NotWellFormed(WFError::InvalidSyntax(_))));
}

#[test]
fn lexer_handles_partial_cdata_end() {
	let (toks, r) = lex(&b"<root>]]</root>"[..], 128);
	r.unwrap();

	let mut iter = toks.iter();
	iter.next().unwrap();
	iter.next().unwrap();
	let (text, start, end, next) = collect_texts(&mut iter);
	assert_eq!(text, "]]");
	assert_eq!(start, 6);
	assert_eq!(end, 8);
	assert_eq!(next.unwrap().metrics().start(), 8);

	let (toks, r) = lex(&b"<root>]]foo</root>"[..], 128);
	r.unwrap();

	let mut iter = toks.iter();
	iter.next().unwrap();
	iter.next().unwrap();
	let (text, start, end, next) = collect_texts(&mut iter);
	assert_eq!(text, "]]foo");
	assert_eq!(start, 6);
	assert_eq!(end, 11);
	assert_eq!(next.unwrap().metrics().start(), 11);

	let (toks, r) = lex(&b"<root>]]&gt;</root>"[..], 128);
	r.unwrap();

	let mut iter = toks.iter();
	iter.next().unwrap();
	iter.next().unwrap();
	let (text, start, end, next) = collect_texts(&mut iter);
	assert_eq!(text, "]]>");
	assert_eq!(start, 6);
	assert_eq!(end, 12);
	assert_eq!(next.unwrap().metrics().start(), 12);

	let (toks, r) = lex(&b"<root>]]]</root>"[..], 128);
	r.unwrap();

	let mut iter = toks.iter();
	iter.next().unwrap();
	iter.next().unwrap();
	let (text, start, end, next) = collect_texts(&mut iter);
	assert_eq!(text, "]]]");
	assert_eq!(start, 6);
	assert_eq!(end, 9);
	assert_eq!(next.unwrap().metrics().start(), 9);

	let (toks, r) = lex(&b"<root>]]]foo</root>"[..], 128);
	r.unwrap();

	let mut iter = toks.iter();
	iter.next().unwrap();
	iter.next().unwrap();
	let (text, start, end, next) = collect_texts(&mut iter);
	assert_eq!(text, "]]]foo");
	assert_eq!(start, 6);
	assert_eq!(end, 12);
	assert_eq!(next.unwrap().metrics().start(), 12);

	let (toks, r) = lex(&b"<root>]]]&gt;</root>"[..], 128);
	r.unwrap();

	let mut iter = toks.iter();
	iter.next().unwrap();
	iter.next().unwrap();
	let (text, start, end, next) = collect_texts(&mut iter);
	assert_eq!(text, "]]]>");
	assert_eq!(start, 6);
	assert_eq!(end, 13);
	assert_eq!(next.unwrap().metrics().start(), 13);
}

#[test]
fn lexer_handles_specials_after_cdata_end() {
	let (toks, r) = lex(&b"<root><![CDATA[]]></root>"[..], 128);
	r.unwrap();

	let mut iter = toks.iter();
	iter.next().unwrap();
	assert_eq!(*iter.next().unwrap(), Token::ElementHFEnd(TokenMetrics::new(5, 6)));
	assert_eq!(*iter.next().unwrap(), Token::ElementFootStart(TokenMetrics::new(18, 24), "root".try_into().unwrap()));
	iter.next().unwrap();

	let (toks, r) = lex(&b"<root><![CDATA[]]>&amp;</root>"[..], 128);
	r.unwrap();

	let mut iter = toks.iter();
	iter.next().unwrap();
	iter.next().unwrap();
	assert_eq!(*iter.next().unwrap(), Token::Text(TokenMetrics::new(18, 23), "&".try_into().unwrap()));

	let (toks, r) = lex(&b"<root><![CDATA[]]><![CDATA[]]]]>&gt;</root>"[..], 128);
	r.unwrap();

	let mut iter = toks.iter();
	iter.next().unwrap();
	iter.next().unwrap();
	let (text, start, end, next) = collect_texts(&mut iter);
	assert_eq!(text, "]]>");
	assert_eq!(start, 18);
	assert_eq!(end, 36);
	assert_eq!(next.unwrap().metrics().start(), 36);
}

#[test]
fn lexer_rejects_nonchar_in_cdata_end_in_text() {
	let err = lex_err(b"<a>]\x00]></a>", 128).unwrap();
	assert!(matches!(err, CrateError::NotWellFormed(WFError::InvalidChar(_, 0u32, false))));

	let err = lex_err(b"<a>]]\x00></a>", 128).unwrap();
	assert!(matches!(err, CrateError::NotWellFormed(WFError::InvalidChar(_, 0u32, false))));
}

#[test]
fn lexer_rejects_numeric_start_of_name_in_closing_tag() {
	// found via fuzzing by moparisthebest
	let err = lex_err(b"</4foo>", 128).unwrap();
	assert!(matches!(err, CrateError::NotWellFormed(WFError::UnexpectedByte(_, b'4', None))));
}

#[test]
fn lexer_rejects_zero_length_name_in_closing_tag() {
	// found via fuzzing by moparisthebest
	let err = lex_err(b"</ >", 128).unwrap();
	assert!(matches!(err, CrateError::NotWellFormed(WFError::UnexpectedByte(_, b' ', None))));
}

#[test]
fn lexer_lex_accounts_whitespace_between_xml_decl_and_element_to_element() {
	// even though this behaviour may seem strange, it is useful for making sure that all bytes are accounted for in the parser.
	// discarding whitespace within an element is fine because that is a single event in the parser and it can reconstruct the gaps from the token metrics
	let mut src = "<?xml version=\"1.0\" encoding='utf-8'?>\n\n<root/>".as_bytes();
	let mut lexer = Lexer::new();
	let mut sink = VecSink::new(128);
	let result = stream_to_sink_from_bytes(&mut lexer, &mut src, &mut sink);

	assert!(result.is_ok());

	let mut iter = sink.dest.iter();
	assert_eq!(*iter.next().unwrap(), Token::XMLDeclStart(TokenMetrics::new(0, 5)));
	assert_eq!(*iter.next().unwrap(), Token::Name(TokenMetrics::new(6, 13), "version".try_into().unwrap()));
	assert_eq!(*iter.next().unwrap(), Token::Eq(TokenMetrics::new(13, 14)));
	assert_eq!(*iter.next().unwrap(), Token::AttributeValue(TokenMetrics::new(14, 19), "1.0".try_into().unwrap()));
	assert_eq!(*iter.next().unwrap(), Token::Name(TokenMetrics::new(20, 28), "encoding".try_into().unwrap()));
	assert_eq!(*iter.next().unwrap(), Token::Eq(TokenMetrics::new(28, 29)));
	assert_eq!(*iter.next().unwrap(), Token::AttributeValue(TokenMetrics::new(29, 36), "utf-8".try_into().unwrap()));
	assert_eq!(*iter.next().unwrap(), Token::XMLDeclEnd(TokenMetrics::new(36, 38)));
	match iter.next().unwrap() {
		Token::ElementHeadStart(tm, ..) => {
			assert_eq!(*tm, TokenMetrics::new(38, 45));
		},
		other => panic!("unexpected event: {:?}", other),
	}
}

#[test]
fn lexer_folds_crlf_to_lf_in_text() {
	// XML 1.0 § 2.11
	let (toks, r) = lex(b"<a>\r\n</a>", 128);
	r.unwrap();

	let mut iter = toks.iter();
	iter.next().unwrap();
	iter.next().unwrap();
	match iter.next().unwrap() {
		Token::Text(_, cdata) => {
			assert_eq!(cdata, "\n");
		},
		other => panic!("unexpected token: {:?}", other),
	}
}

#[test]
fn lexer_rejects_nonchar_after_cr() {
	let err = lex_err(b"<a>\r\x01</a>", 128).unwrap();
	match err {
		CrateError::NotWellFormed(WFError::InvalidChar(_, 1, false)) => (),
		other => panic!("unexpected error: {:?}", other),
	}
}

#[test]
fn lexer_rejects_nonchar_after_cr_in_cdata() {
	// found with afl
	let err = lex_err(b"<a><![CDATA[\r\x01]]></a>", 128).unwrap();
	match err {
		CrateError::NotWellFormed(WFError::InvalidChar(_, 1, false)) => (),
		other => panic!("unexpected error: {:?}", other),
	}
}

#[test]
fn lexer_does_not_modify_charrefs_for_line_endings() {
	// XML 1.0 § 2.11
	let (toks, r) = lex(b"<a>&#xd;&#xa;</a>", 128);
	r.unwrap();

	let mut iter = toks.iter();
	iter.next().unwrap();
	iter.next().unwrap();
	let (text, _, _, _) = collect_texts(&mut iter);
	assert_eq!(text, "\r\n");
}

#[test]
fn lexer_folds_crlf_to_lf_in_cdata() {
	// XML 1.0 § 2.11
	let (toks, r) = lex(b"<a><![CDATA[\r\n]]></a>", 128);
	r.unwrap();

	let mut iter = toks.iter();
	iter.next().unwrap();
	iter.next().unwrap();
	match iter.next().unwrap() {
		Token::Text(_, cdata) => {
			assert_eq!(cdata, "\n");
		},
		other => panic!("unexpected token: {:?}", other),
	}
}

#[test]
fn lexer_cr_folding_does_not_break_specials() {
	// XML 1.0 § 2.11
	let (toks, r) = lex(b"<a>\r</a>", 128);
	r.unwrap();

	let mut iter = toks.iter();
	iter.next().unwrap();
	iter.next().unwrap();
	match iter.next().unwrap() {
		Token::Text(_, cdata) => {
			assert_eq!(cdata, "\n");
		},
		other => panic!("unexpected token: {:?}", other),
	}
}

#[test]
fn lexer_cr_folding_in_cdata_does_not_break_exit() {
	// XML 1.0 § 2.11
	let (toks, r) = lex(b"<a><![CDATA[\r]]></a>", 128);
	r.unwrap();

	let mut iter = toks.iter();
	iter.next().unwrap();
	iter.next().unwrap();
	match iter.next().unwrap() {
		Token::Text(_, cdata) => {
			assert_eq!(cdata, "\n");
		},
		other => panic!("unexpected token: {:?}", other),
	}
}

#[test]
fn lexer_cr_folding_in_cdata_does_not_break_exit_cdata_section() {
	// XML 1.0 § 2.11
	let (toks, r) = lex(b"<a><![CDATA[\r<>]]></a>", 128);
	r.unwrap();

	let mut iter = toks.iter();
	iter.next().unwrap();
	iter.next().unwrap();
	match iter.next().unwrap() {
		Token::Text(_, cdata) => {
			assert_eq!(cdata, "\n<>");
		},
		other => panic!("unexpected token: {:?}", other),
	}
}

#[test]
fn lexer_folds_crcrlf_to_lflf_in_text() {
	// XML 1.0 § 2.11
	let (toks, r) = lex(b"<a>\r\r\n</a>", 128);
	r.unwrap();

	let mut iter = toks.iter();
	iter.next().unwrap();
	iter.next().unwrap();
	match iter.next().unwrap() {
		Token::Text(_, cdata) => {
			assert_eq!(cdata, "\n\n");
		},
		other => panic!("unexpected token: {:?}", other),
	}
}

#[test]
fn lexer_folds_cr_to_lf_in_text() {
	// XML 1.0 § 2.11
	let (toks, r) = lex(b"<a>\r</a>", 128);
	r.unwrap();

	let mut iter = toks.iter();
	iter.next().unwrap();
	iter.next().unwrap();
	match iter.next().unwrap() {
		Token::Text(_, cdata) => {
			assert_eq!(cdata, "\n");
		},
		other => panic!("unexpected token: {:?}", other),
	}
}

#[test]
fn lexer_normalizes_whitespace_in_attributes() {
	// XML 1.0 § 3.3.3
	let (toks, r) = lex(b"<a x='\r\r\n\t '/>", 128);
	r.unwrap();

	let mut iter = toks.iter();
	iter.next().unwrap();
	iter.next().unwrap();
	iter.next().unwrap();
	match iter.next().unwrap() {
		Token::AttributeValue(_, cdata) => {
			// just four spaces, because CRLF normalization happens before attribute value normalization
			// gotta love this
			assert_eq!(cdata, "    ");
		},
		other => panic!("unexpected token: {:?}", other),
	}
}

#[test]
fn lexer_handles_crlf_in_attribute() {
	// XML 1.0 § 3.3.3
	let (toks, r) = lex(b"<a x='\r\n\t '/>", 128);
	r.unwrap();

	let mut iter = toks.iter();
	iter.next().unwrap();
	iter.next().unwrap();
	iter.next().unwrap();
	match iter.next().unwrap() {
		Token::AttributeValue(_, cdata) => {
			assert_eq!(cdata, "   ");
		},
		other => panic!("unexpected token: {:?}", other),
	}
}

#[test]
fn lexer_preserves_whitespace_inserted_via_charrefs_in_attributes() {
	// XML 1.0 § 3.3.3
	let (toks, r) = lex(b"<a x='&#xd;&#xa;&#x9; '/>", 128);
	r.unwrap();

	let mut iter = toks.iter();
	iter.next().unwrap();
	iter.next().unwrap();
	iter.next().unwrap();
	match iter.next().unwrap() {
		Token::AttributeValue(_, cdata) => {
			assert_eq!(cdata, "\r\n\t ");
		},
		other => panic!("unexpected token: {:?}", other),
	}
}

#[test]
fn lexer_is_resilient_to_chunking() {
	let (_toks, r) = lex_chunked(
		&[&b"<foo bar='baz' "[..], &b"fnord=''/>"[..]],
		128,
	);
	r.unwrap();
}

#[test]
fn lexer_emits_close_tag_token_even_at_end_of_buffer() {
	let mut buf = BufferQueue::new();
	buf.push(&b"</foo>"[..]);
	let mut lexer = Lexer::new();
	match lexer.lex(&mut buf) {
		Ok(Some(Token::ElementFootStart(_, _))) => (),
		other => panic!("unexpected result: {:?}", other),
	};
	match lexer.lex(&mut buf) {
		Ok(Some(Token::ElementHFEnd(_))) => (),
		other => panic!("unexpected result: {:?}", other),
	};
	match lexer.lex(&mut buf) {
		Err(CrateError::IO(ioerr)) if ioerr.kind() == io::ErrorKind::WouldBlock => (),
		other => panic!("unexpected result: {:?}", other),
	};
}

#[test]
fn lexer_catches_broken_utf8_sequence_at_end_of_file() {
	let mut buf = &b"<xyz>\xf0\x9f\x8e"[..];
	let mut lexer = Lexer::new();
	match lexer.lex(&mut buf) {
		Ok(Some(Token::ElementHeadStart(_, name))) => {
			assert_eq!(name, "xyz");
		},
		other => panic!("unexpected result: {:?}", other),
	};
	match lexer.lex(&mut buf) {
		Ok(Some(Token::ElementHFEnd(_))) => (),
		other => panic!("unexpected result: {:?}", other),
	};
	match lexer.lex(&mut buf) {
		Err(CrateError::IO(ioerr)) if ioerr.kind() == io::ErrorKind::WouldBlock => (),
		other => panic!("unexpected result: {:?}", other),
	};
	match lexer.lex(&mut buf) {
		Err(CrateError::InvalidUtf8Byte(_)) => (),
		other => panic!("unexpected result: {:?}", other),
	};
}

#[test]
fn lexer_catches_incorrect_utf8_at_end_of_file() {
	let mut buf = &b"<xyz>\xf0\x9f\x8e\xff"[..];
	let mut lexer = Lexer::new();
	match lexer.lex(&mut buf) {
		Ok(Some(Token::ElementHeadStart(_, name))) => {
			assert_eq!(name, "xyz");
		},
		other => panic!("unexpected result: {:?}", other),
	};
	match lexer.lex(&mut buf) {
		Ok(Some(Token::ElementHFEnd(_))) => (),
		other => panic!("unexpected result: {:?}", other),
	};
	match lexer.lex(&mut buf) {
		Err(CrateError::IO(ioerr)) if ioerr.kind() == io::ErrorKind::WouldBlock => (),
		other => panic!("unexpected result: {:?}", other),
	};
	match lexer.lex(&mut buf) {
		Err(CrateError::InvalidUtf8Byte(_)) => (),
		other => panic!("unexpected result: {:?}", other),
	};
}

#[test]
fn lexer_handles_chunked_utf8_fed_bytewise() {
	let src = "<xyz>fööbär🎉</xyz>".as_bytes();
	let mut buf = io::BufReader::with_capacity(1, src);
	let mut lexer = Lexer::new();
	lexer.lex(&mut buf).err().unwrap();
	lexer.lex(&mut buf).err().unwrap();
	lexer.lex(&mut buf).err().unwrap();
	lexer.lex(&mut buf).err().unwrap();
	match lexer.lex(&mut buf) {
		Ok(Some(Token::ElementHeadStart(_, name))) => {
			assert_eq!(name, "xyz");
		},
		other => panic!("unexpected result: {:?}", other),
	};
	match lexer.lex(&mut buf) {
		Ok(Some(Token::ElementHFEnd(_))) => (),
		other => panic!("unexpected result: {:?}", other),
	};
	lexer.lex(&mut buf).err().unwrap();
	lexer.lex(&mut buf).err().unwrap();
	lexer.lex(&mut buf).err().unwrap();
	lexer.lex(&mut buf).err().unwrap();
	lexer.lex(&mut buf).err().unwrap();
	lexer.lex(&mut buf).err().unwrap();
	lexer.lex(&mut buf).err().unwrap();
	lexer.lex(&mut buf).err().unwrap();
	lexer.lex(&mut buf).err().unwrap();
	lexer.lex(&mut buf).err().unwrap();
	lexer.lex(&mut buf).err().unwrap();
	lexer.lex(&mut buf).err().unwrap();
	lexer.lex(&mut buf).err().unwrap();
	match lexer.lex(&mut buf) {
		Ok(Some(Token::Text(_, text))) => {
			assert_eq!(text, "fööbär🎉");
		},
		other => panic!("unexpected result: {:?}", other),
	};
	lexer.lex(&mut buf).err().unwrap();
	lexer.lex(&mut buf).err().unwrap();
	lexer.lex(&mut buf).err().unwrap();
	lexer.lex(&mut buf).err().unwrap();
	match lexer.lex(&mut buf) {
		Ok(Some(Token::ElementFootStart(_, name))) => {
			assert_eq!(name, "xyz");
		},
		other => panic!("unexpected result: {:?}", other),
	};
	match lexer.lex(&mut buf) {
		Ok(Some(Token::ElementHFEnd(_))) => (),
		other => panic!("unexpected result: {:?}", other),
	};
}

#[test]
fn lexer_reports_end_of_document_again_without_consuming() {
	let mut lexer = Lexer::new();
	let mut buf = &b"<a/>"[..];
	loop {
		match lexer.lex_bytes(&mut buf, true) {
			Ok(Some(_)) => (),
			Ok(None) => break,
			Err(e) => panic!("unexpected error: {:?}", e),
		}
	}
	let mut more = &b"<b/>"[..];
	assert!(matches!(lexer.lex_bytes(&mut more, true), Ok(None)));
	assert!(matches!(lexer.lex_bytes(&mut more, false), Ok(None)));
	assert_eq!(more, &b"<b/>"[..]);
}

#[test]
fn lexer_rejects_element_name_starting_with_non_name_start_byte() {
	let mut lexer = Lexer::new();
	let mut src: &[u8] = b"<4a/>";
	let err = lexer.lex_bytes(&mut src, true).err().unwrap();
	assert!(matches!(err, CrateError::NotWellFormed(WFError::UnexpectedByte(ERRCTX_NAMESTART, b'4', None))));
	let mut lexer = Lexer::new();
	let mut src: &[u8] = b"< a/>";
	let err = lexer.lex_bytes(&mut src, false).err().unwrap();
	assert!(matches!(err, CrateError::NotWellFormed(WFError::UnexpectedByte(ERRCTX_NAMESTART, b' ', None))));
}

#[test]
fn lexer_rejects_cdata_end_sequence_in_text() {
	let mut lexer = Lexer::new();
	let mut src: &[u8] = b"]]>rest";
	let err = lexer.lex_bytes(&mut src, true).err().unwrap();
	assert!(matches!(err, CrateError::NotWellFormed(WFError::InvalidSyntax(_))));
	assert_eq!(src, b"rest");
}

#[test]
fn lexer_reads_crlf_before_markup_as_one_line_feed() {
	let mut lexer = Lexer::new();
	let mut src: &[u8] = b"\r\n<a/>";
	let tok = lexer.lex_bytes(&mut src, true).unwrap().unwrap();
	match tok {
		Token::Text(_, c) => assert_eq!(&*c, "\n"),
		other => panic!("unexpected token: {:?}", other),
	}
	assert_eq!(src, b"a/>");
}

#[test]
fn lexer_splits_text_at_the_token_length_limit() {
	let mut lexer = Lexer::with_options(LexerOptions::default().max_token_length(4));
	let mut src: &[u8] = b"abcdefg";
	let tok = lexer.lex_bytes(&mut src, false).unwrap().unwrap();
	match tok {
		Token::Text(m, c) => {
			assert_eq!(&*c, "abcd");
			assert_eq!(m, TokenMetrics::new(0, 4));
		}
		other => panic!("unexpected token: {:?}", other),
	}
	assert_eq!(src, b"efg");
}

#[test]
fn lexer_refuses_element_name_longer_than_token_length_limit() {
	let mut lexer = Lexer::with_options(LexerOptions::default().max_token_length(4));
	let mut src: &[u8] = b"<abcdefg/>";
	let err = lexer.lex_bytes(&mut src, true).err().unwrap();
	assert!(matches!(err, CrateError::RestrictedXml(_)));
}

#[test]
fn lexer_new_lexes_as_lexer_with_default_options() {
	let doc: &[u8] = b"<?xml version='1.0'?>\n<a b='c&amp;'>text\r\n<![CDATA[x]]></a>";
	let mut l1 = Lexer::new();
	let mut l2 = Lexer::with_options(LexerOptions::default());
	let mut s1 = doc;
	let mut s2 = doc;
	loop {
		let t1 = l1.lex_bytes(&mut s1, true);
		let t2 = l2.lex_bytes(&mut s2, true);
		assert_eq!(format!("{:?}", t1), format!("{:?}", t2));
		assert_eq!(s1, s2);
		match t1 {
			Ok(Some(_)) => (),
			_ => break,
		}
	}
}

fn lex_bytes_whole(doc: &[u8]) -> (Vec<Token>, bool) {
	let mut lexer = Lexer::new();
	let mut r: &[u8] = doc;
	let mut out = Vec::new();
	loop {
		match lexer.lex_bytes(&mut r, true) {
			Ok(Some(t)) => out.push(t),
			Ok(None) => return (out, true),
			Err(_) => return (out, false),
		}
	}
}

fn lex_bytes_in_pieces(doc: &[u8], n: usize) -> (Vec<Token>, bool) {
	let mut lexer = Lexer::new();
	let mut out = Vec::new();
	for chunk in doc.chunks(n) {
		let mut r: &[u8] = chunk;
		loop {
			match lexer.lex_bytes(&mut r, false) {
				Ok(Some(t)) => out.push(t),
				Err(CrateError::IO(e)) if e.kind() == io::ErrorKind::WouldBlock => {
					assert!(r.is_empty());
					break;
				}
				Ok(None) => return (out, true),
				Err(_) => return (out, false),
			}
		}
	}
	let mut r: &[u8] = &[];
	loop {
		match lexer.lex_bytes(&mut r, true) {
			Ok(Some(t)) => out.push(t),
			Ok(None) => return (out, true),
			Err(_) => return (out, false),
		}
	}
}

#[test]
fn lexer_pieces_lex_as_the_whole_document() {
	let doc = &b"<?xml version='1.0'?>\n<root a='x&amp;y' b=\"z\">text &lt; more\r\n<![CDATA[c]]d]]><child/>  tail</root>"[..];
	let (whole, ok) = lex_bytes_whole(doc);
	assert!(ok);
	assert!(whole.len() > 10);
	for n in 1..doc.len() + 1 {
		let (pieces, ok2) = lex_bytes_in_pieces(doc, n);
		assert!(ok2);
		assert_eq!(pieces, whole);
	}
}

#[test]
fn lexer_pieces_fail_as_the_whole_document() {
	let doc = &b"<root>ok &bogus; x</root>"[..];
	let (whole, ok) = lex_bytes_whole(doc);
	assert!(!ok);
	for n in 1..doc.len() + 1 {
		let (pieces, ok2) = lex_bytes_in_pieces(doc, n);
		assert!(!ok2);
		assert_eq!(pieces, whole);
	}
}

#[test]
fn lexer_new_lexes_as_default_options() {
	let doc = &b"<?xml version='1.0'?><a b='c'>d&amp;e<![CDATA[f]]></a>"[..];
	let mut a = Lexer::new();
	let mut b = Lexer::with_options(LexerOptions::defaults());
	let mut ra: &[u8] = doc;
	let mut rb: &[u8] = doc;
	loop {
		let ta = a.lex_bytes(&mut ra, true);
		let tb = b.lex_bytes(&mut rb, true);
		assert_eq!(ra.len(), rb.len());
		match (ta, tb) {
			(Ok(Some(x)), Ok(Some(y))) => assert_eq!(x, y),
			(Ok(None), Ok(None)) => break,
			(x, y) => panic!("different results: {:?} {:?}", x.is_ok(), y.is_ok()),
		}
	}
}

#[test]
fn lexer_reports_the_first_byte_which_is_no_utf8() {
	let mut lexer = Lexer::new();
	let mut r: &[u8] = &b"<a>xy\xc3(z</a>"[..];
	let mut last = None;
	loop {
		match lexer.lex_bytes(&mut r, true) {
			Ok(Some(_)) => continue,
			Ok(None) => break,
			Err(e) => {
				last = Some(e);
				break;
			}
		}
	}
	assert!(matches!(last, Some(CrateError::InvalidUtf8Byte(0xc3))));
}
