//! XML 1.0 lexer.
//!
//! The [`Lexer`] turns bytes into [`Token`]s. It is resumable: it keeps its
//! state between calls, so that a document may be fed in arbitrary chunks.
use vstd::prelude::*;
use vstd::string::*;
use vstd::utf8::*;

pub mod ranges;
pub mod read;

use crate::error::{
    xml_error_with_context, Error, Result as CrateResult, XmlError, ERRCTX_ATTVAL,
    ERRCTX_CDATA_SECTION, ERRCTX_CDATA_SECTION_START, ERRCTX_ELEMENT, ERRCTX_ELEMENT_CLOSE,
    ERRCTX_ELEMENT_FOOT, ERRCTX_NAME, ERRCTX_NAMESTART, ERRCTX_REF, ERRCTX_TEXT, ERRCTX_UNKNOWN,
    ERRCTX_XML_DECL, ERRCTX_XML_DECL_END, ERRCTX_XML_DECL_START,
};
use crate::parser::common::{lemma_lexer_delivers_concat, lemma_lexer_delivers_push, lexer_delivers, lexer_reads};
use crate::strings::{CData, Name};
use crate::validation::{is_name_char, is_name_start_char, is_valid_cdata, is_valid_name, is_xml_char};
use ranges::{
    is_namestart_byte, is_nonchar_byte, spec_is_decimal_digit, spec_is_hexadecimal_digit,
    spec_is_name_delimiter, spec_is_namestart_byte, spec_is_nonchar_byte, spec_is_text_delimiter, ByteClass,
    ByteSelect,
};
use read::{
    leading_run, lemma_leading_run, lemma_read_validated_extend, lemma_read_validated_resume, lemma_read_validated_spec,
    lemma_skip_matching_extend, lemma_skip_matching_resume, lemma_skip_matching_spec, read_validated_bytes,
    read_validated_spec, skip_matching_bytes, skip_matching_spec, Endbyte,
};

verus! {

broadcast use vstd::utf8::group_utf8_lib, vstd::string::group_string_axioms;

/// The position in the stream after `n` more bytes, with the counter
/// wrapping around at the width of `usize`.
pub open spec fn ctr_advance(c: usize, n: nat) -> usize {
    ((c + n) % (usize::MAX + 1)) as usize
}

proof fn lemma_ctr_advance_add(c: usize, a: nat, b: nat)
    ensures ctr_advance(ctr_advance(c, a), b) == ctr_advance(c, a + b),
{
    let m = usize::MAX + 1;
    vstd::arithmetic::div_mod::lemma_add_mod_noop_right(b as int, c + a, m);
    vstd::arithmetic::div_mod::lemma_mod_bound(c + a, m);
    assert(b + (c + a) == c + (a + b));
}

pub(crate) proof fn lemma_ctr_advance_zero(c: usize)
    ensures ctr_advance(c, 0) == c,
{
    vstd::arithmetic::div_mod::lemma_small_mod(c as nat, (usize::MAX + 1) as nat);
}

proof fn lemma_wrapping_add_is_advance(c: usize, n: usize)
    ensures vstd::wrapping::usize_specs::wrapping_add(c, n) == ctr_advance(c, n as nat),
{
    let m = usize::MAX + 1;
    if c + n > usize::MAX {
        vstd::arithmetic::div_mod::lemma_mod_sub_multiples_vanish(c + n, m);
        vstd::arithmetic::div_mod::lemma_small_mod((c + n - m) as nat, m as nat);
    } else {
        vstd::arithmetic::div_mod::lemma_small_mod((c + n) as nat, m as nat);
    }
}

/// Information about where in the stream a token was observed.
///
/// Tokens are not necessarily consecutive: whitespace inside element
/// headers and footers and between the XML declaration and the first
/// element does not become part of any token.
#[derive(Copy, Debug, Clone, PartialEq, Eq)]
pub struct TokenMetrics {
    start: usize,
    end: usize,
}

impl TokenMetrics {
    /// Create metrics for a token spanning `start..end`.
    pub fn new(start: usize, end: usize) -> (r: TokenMetrics)
        ensures r.spec_start() == start, r.spec_end() == end,
    {
        TokenMetrics { start: start, end: end }
    }

    /// Get the length of the token, taking a potential counter overflow
    /// into account.
    pub fn len(&self) -> (r: usize)
        ensures r == vstd::wrapping::usize_specs::wrapping_sub(self.spec_end(), self.spec_start()),
    {
        self.end.wrapping_sub(self.start)
    }

    /// Start byte in the stream (a counter which may wrap around).
    pub fn start(&self) -> (r: usize)
        ensures r == self.spec_start(),
    {
        self.start
    }

    /// End byte of the token in the stream (exclusive).
    pub fn end(&self) -> (r: usize)
        ensures r == self.spec_end(),
    {
        self.end
    }

    /// The start position.
    pub closed spec fn spec_start(&self) -> usize {
        self.start
    }

    /// The end position.
    pub closed spec fn spec_end(&self) -> usize {
        self.end
    }
}

/// A single XML token.
///
/// Each token carries [`TokenMetrics`] which describe the byte range of the
/// input from which it was derived.
#[derive(Debug, Clone, PartialEq)]
pub enum Token {
    /// A freestanding (i.e. not the element name) XML `Name`.
    Name(TokenMetrics, Name),
    /// An equal sign.
    Eq(TokenMetrics),
    /// An attribute value, with references expanded and delimiters removed.
    AttributeValue(TokenMetrics, CData),
    /// The `?>` sequence.
    XMLDeclEnd(TokenMetrics),
    /// The `/>` sequence.
    ElementHeadClose(TokenMetrics),
    /// The `>` sequence.
    ElementHFEnd(TokenMetrics),
    /// The `<?xml` sequence.
    XMLDeclStart(TokenMetrics),
    /// The `<` sequence, not followed by `/` or `?xml`, with the element
    /// name.
    ElementHeadStart(TokenMetrics, Name),
    /// The `</` sequence, with the element name.
    ElementFootStart(TokenMetrics, Name),
    /// A piece of character data inside an element.
    Text(TokenMetrics, CData),
}

/// Token type name of [`Token::Name`].
pub const NAME_NAME: &'static str = "Name";
/// Token type name of [`Token::Eq`].
pub const NAME_EQ: &'static str = "'='";
/// Token type name of [`Token::AttributeValue`].
pub const NAME_ATTRIBUTEVALUE: &'static str = "AttValue";
/// Token type name of [`Token::XMLDeclEnd`].
pub const NAME_XMLDECLEND: &'static str = "'?>'";
/// Token type name of [`Token::ElementHeadClose`].
pub const NAME_ELEMENTHEADCLOSE: &'static str = "'/>'";
/// Token type name of [`Token::ElementHFEnd`].
pub const NAME_ELEMENTHFEND: &'static str = "'>'";
/// Token type name of [`Token::XMLDeclStart`].
pub const NAME_XMLDECLSTART: &'static str = "'<?xml'";
/// Token type name of [`Token::ElementHeadStart`].
pub const NAME_ELEMENTHEADSTART: &'static str = "'<'";
/// Token type name of [`Token::ElementFootStart`].
pub const NAME_ELEMENTFOOTSTART: &'static str = "'</'";
/// Token type name of [`Token::Text`].
pub const NAME_TEXT: &'static str = "Text";

/// The type name of a token.
pub open spec fn token_name_spec(t: Token) -> &'static str {
    match t {
        Token::Name(..) => NAME_NAME,
        Token::Eq(..) => NAME_EQ,
        Token::AttributeValue(..) => NAME_ATTRIBUTEVALUE,
        Token::XMLDeclEnd(..) => NAME_XMLDECLEND,
        Token::ElementHeadClose(..) => NAME_ELEMENTHEADCLOSE,
        Token::ElementHFEnd(..) => NAME_ELEMENTHFEND,
        Token::XMLDeclStart(..) => NAME_XMLDECLSTART,
        Token::ElementHeadStart(..) => NAME_ELEMENTHEADSTART,
        Token::ElementFootStart(..) => NAME_ELEMENTFOOTSTART,
        Token::Text(..) => NAME_TEXT,
    }
}

/// The metrics of a token.
pub open spec fn token_metrics_spec(t: Token) -> TokenMetrics {
    match t {
        Token::Name(m, ..) => m,
        Token::Eq(m) => m,
        Token::AttributeValue(m, ..) => m,
        Token::XMLDeclEnd(m) => m,
        Token::ElementHeadClose(m) => m,
        Token::ElementHFEnd(m) => m,
        Token::XMLDeclStart(m) => m,
        Token::ElementHeadStart(m, ..) => m,
        Token::ElementFootStart(m, ..) => m,
        Token::Text(m, ..) => m,
    }
}

impl Token {
    /// Return a static string describing the token type.
    pub fn name(&self) -> (r: &'static str)
        ensures r == token_name_spec(*self),
    {
        match self {
            Token::Name(..) => NAME_NAME,
            Token::Eq(..) => NAME_EQ,
            Token::AttributeValue(..) => NAME_ATTRIBUTEVALUE,
            Token::XMLDeclEnd(..) => NAME_XMLDECLEND,
            Token::ElementHeadClose(..) => NAME_ELEMENTHEADCLOSE,
            Token::ElementHFEnd(..) => NAME_ELEMENTHFEND,
            Token::XMLDeclStart(..) => NAME_XMLDECLSTART,
            Token::ElementHeadStart(..) => NAME_ELEMENTHEADSTART,
            Token::ElementFootStart(..) => NAME_ELEMENTFOOTSTART,
            Token::Text(..) => NAME_TEXT,
        }
    }

    /// Return a reference to this token's [`TokenMetrics`].
    pub fn metrics(&self) -> (r: &TokenMetrics)
        ensures *r == token_metrics_spec(*self),
    {
        match self {
            Token::Name(m, ..) => m,
            Token::Eq(m) => m,
            Token::AttributeValue(m, ..) => m,
            Token::XMLDeclEnd(m) => m,
            Token::ElementHeadClose(m) => m,
            Token::ElementHFEnd(m) => m,
            Token::XMLDeclStart(m) => m,
            Token::ElementHeadStart(m, ..) => m,
            Token::ElementFootStart(m, ..) => m,
            Token::Text(m, ..) => m,
        }
    }
}

/// Longest possible reference: entity names have at most 4 bytes, decimal
/// references at most 7 digits and hexadecimal references at most 6.
pub const MAX_REFERENCE_LENGTH: usize = 8;

/// The default maximum token length.
pub const DEFAULT_MAX_TOKEN_LENGTH: usize = 8192;

/// Options to configure a [`Lexer`].
#[derive(Debug, Clone, PartialEq, Copy)]
pub struct LexerOptions {
    /// Maximum number of bytes which can form a token.
    ///
    /// Text tokens exceeding it are split and emitted in parts; all other
    /// tokens exceeding it cause an error.
    pub max_token_length: usize,
}

impl LexerOptions {
    /// Constructs default lexer options.
    pub fn defaults() -> (r: LexerOptions)
        ensures r.max_token_length == DEFAULT_MAX_TOKEN_LENGTH,
    {
        LexerOptions { max_token_length: DEFAULT_MAX_TOKEN_LENGTH }
    }

    /// Set the [`LexerOptions::max_token_length`] value.
    pub fn max_token_length(self, v: usize) -> (r: LexerOptions)
        ensures r.max_token_length == v,
    {
        LexerOptions { max_token_length: v }
    }
}

impl Default for LexerOptions {
    fn default() -> (r: LexerOptions)
        ensures r.max_token_length == DEFAULT_MAX_TOKEN_LENGTH,
    {
        LexerOptions::defaults()
    }
}

/// The byte a predefined entity name stands for (`amp`, `lt`, `gt`, `apos`,
/// `quot`).
pub open spec fn named_entity_spec(name: Seq<u8>) -> Option<u8> {
    if name == seq![0x61u8, 0x6d, 0x70] {
        Some(0x26)
    } else if name == seq![0x6cu8, 0x74] {
        Some(0x3c)
    } else if name == seq![0x67u8, 0x74] {
        Some(0x3e)
    } else if name == seq![0x61u8, 0x70, 0x6f, 0x73] {
        Some(0x27)
    } else if name == seq![0x71u8, 0x75, 0x6f, 0x74] {
        Some(0x22)
    } else {
        None
    }
}

fn bytes_eq(a: &[u8], b: &[u8]) -> (r: bool)
    ensures r == (a@ == b@),
{
    if a.len() != b.len() {
        return false;
    }
    let mut i: usize = 0;
    while i < a.len()
        invariant
            a.len() == b.len(),
            i <= a.len(),
            forall|j: int| 0 <= j < i ==> a@[j] == b@[j],
        decreases a.len() - i,
    {
        if a[i] != b[i] {
            return false;
        }
        i = i + 1;
    }
    assert(a@ =~= b@);
    true
}

fn resolve_named_entity(name: &[u8]) -> (r: LexResult<u8>)
    ensures
        match named_entity_spec(name@) {
            Some(b) => r == LexResult::Ok(b),
            None => r == LexResult::<u8>::Err(LexError::NotWellFormed(XmlError::UndeclaredEntity)),
        },
{
    let amp: [u8; 3] = [0x61, 0x6d, 0x70];
    let lt: [u8; 2] = [0x6c, 0x74];
    let gt: [u8; 2] = [0x67, 0x74];
    let apos: [u8; 4] = [0x61, 0x70, 0x6f, 0x73];
    let quot: [u8; 4] = [0x71, 0x75, 0x6f, 0x74];
    assert(amp@ =~= seq![0x61u8, 0x6d, 0x70]);
    assert(lt@ =~= seq![0x6cu8, 0x74]);
    assert(gt@ =~= seq![0x67u8, 0x74]);
    assert(apos@ =~= seq![0x61u8, 0x70, 0x6f, 0x73]);
    assert(quot@ =~= seq![0x71u8, 0x75, 0x6f, 0x74]);
    if bytes_eq(name, amp.as_slice()) {
        Ok(0x26)
    } else if bytes_eq(name, lt.as_slice()) {
        Ok(0x3c)
    } else if bytes_eq(name, gt.as_slice()) {
        Ok(0x3e)
    } else if bytes_eq(name, apos.as_slice()) {
        Ok(0x27)
    } else if bytes_eq(name, quot.as_slice()) {
        Ok(0x22)
    } else {
        Err(LexError::NotWellFormed(XmlError::UndeclaredEntity))
    }
}

/// Radix of a character reference.
#[derive(Debug, Clone, Copy, PartialEq, Eq, Structural)]
pub enum CharRefRadix {
    /// `&#...;`
    Decimal,
    /// `&#x...;`
    Hexadecimal,
}

/// The numeric base of a radix.
pub open spec fn radix_base(radix: CharRefRadix) -> nat {
    match radix {
        CharRefRadix::Decimal => 10,
        CharRefRadix::Hexadecimal => 16,
    }
}

/// The value of an ASCII digit.
pub open spec fn digit_value(b: u8) -> nat {
    if 0x30 <= b <= 0x39 {
        (b - 0x30) as nat
    } else if 0x61 <= b <= 0x66 {
        (b - 0x61 + 10) as nat
    } else {
        (b - 0x41 + 10) as nat
    }
}

/// Whether `b` is a digit of the radix.
pub open spec fn is_radix_digit(radix: CharRefRadix, b: u8) -> bool {
    match radix {
        CharRefRadix::Decimal => spec_is_decimal_digit(b),
        CharRefRadix::Hexadecimal => spec_is_hexadecimal_digit(b),
    }
}

/// The digits of a hexadecimal character reference (`&#x...;`) are exactly
/// the bytes `0`-`9`, `a`-`f` and `A`-`F`; a letter has the same value in
/// either case, `a` and `A` ten up to `f` and `F` fifteen, and every digit
/// is below sixteen.
pub proof fn law_hexadecimal_reference_digits(b: u8)
    ensures
        is_radix_digit(CharRefRadix::Hexadecimal, b)
            <==> ((0x30 <= b && b <= 0x39) || (0x61 <= b && b <= 0x66) || (0x41 <= b && b <= 0x46)),
        is_radix_digit(CharRefRadix::Hexadecimal, b) ==> digit_value(b) < 16,
        0x41 <= b <= 0x46 ==> is_radix_digit(CharRefRadix::Hexadecimal, b)
            && is_radix_digit(CharRefRadix::Hexadecimal, (b + 0x20) as u8)
            && digit_value(b) == b - 0x37
            && digit_value(b) == digit_value((b + 0x20) as u8),
        0x30 <= b <= 0x39 ==> is_radix_digit(CharRefRadix::Hexadecimal, b) && digit_value(b) == b - 0x30,
        is_radix_digit(CharRefRadix::Decimal, b) <==> 0x30 <= b <= 0x39,
{
}

/// The byte classes by which the lexer reads names and text agree with the
/// XML 1.0 productions on ASCII characters: a byte may start a name exactly
/// when the character is a `NameStartChar`, it continues a name exactly when
/// the character is a `NameChar`, and it can never occur exactly when the
/// character is no `Char`.
pub proof fn law_ascii_byte_classes_follow_the_productions(c: char)
    requires (c as u32) < 0x80,
    ensures
        spec_is_namestart_byte((c as u32) as u8) <==> is_name_start_char(c),
        !spec_is_name_delimiter((c as u32) as u8) <==> is_name_char(c),
        spec_is_nonchar_byte((c as u32) as u8) <==> !is_xml_char(c),
{
}

/// The number written with the digits `s` in the base of `radix`.
pub open spec fn digits_value(radix: CharRefRadix, s: Seq<u8>) -> nat
    decreases s.len(),
{
    if s.len() == 0 {
        0
    } else {
        digits_value(radix, s.drop_last()) * radix_base(radix) + digit_value(s.last())
    }
}

/// `base` to the power of `n`.
pub open spec fn power(base: nat, n: nat) -> nat
    decreases n,
{
    if n == 0 { 1 } else { base * power(base, (n - 1) as nat) }
}

proof fn lemma_power_monotone(base: nat, a: nat, b: nat)
    requires base >= 1, a <= b,
    ensures power(base, a) <= power(base, b),
    decreases b,
{
    if a < b {
        lemma_power_monotone(base, a, (b - 1) as nat);
        assert(power(base, (b - 1) as nat) <= base * power(base, (b - 1) as nat)) by (nonlinear_arith)
            requires base >= 1;
    }
}

/// Whether a codepoint is an XML 1.0 `Char`.
pub open spec fn is_xml_codepoint(cp: u32) -> bool {
    ||| cp == 0x9
    ||| cp == 0xa
    ||| cp == 0xd
    ||| 0x20 <= cp <= 0xd7ff
    ||| 0xe000 <= cp <= 0xfffd
    ||| 0x10000 <= cp <= 0x10ffff
}

proof fn lemma_digits_value_bound(radix: CharRefRadix, s: Seq<u8>)
    requires forall|i: int| 0 <= i < s.len() ==> is_radix_digit(radix, #[trigger] s[i]),
    ensures digits_value(radix, s) < power(radix_base(radix), s.len()),
    decreases s.len(),
{
    let b = radix_base(radix) as int;
    if s.len() > 0 {
        let p = s.drop_last();
        assert forall|i: int| 0 <= i < p.len() implies is_radix_digit(radix, #[trigger] p[i]) by {
            assert(p[i] == s[i]);
        }
        lemma_digits_value_bound(radix, p);
        assert(is_radix_digit(radix, s[s.len() - 1]));
        let v = digits_value(radix, p);
        let d = digit_value(s.last());
        let pw = power(radix_base(radix), p.len());
        assert(power(radix_base(radix), s.len()) == b * pw);
        assert(d < b);
        assert(v * b + d < b * pw) by (nonlinear_arith)
            requires v < pw, d < b, 0 <= d, 0 <= v;
    }
}

/// Parse the digits of a character reference; at most eight digits.
fn parse_digits(s: &[u8], radix: CharRefRadix) -> (r: u32)
    requires
        s@.len() <= 8,
        forall|i: int| 0 <= i < s@.len() ==> is_radix_digit(radix, #[trigger] s@[i]),
    ensures r == digits_value(radix, s@),
{
    let base: u64 = match radix {
        CharRefRadix::Decimal => 10,
        CharRefRadix::Hexadecimal => 16,
    };
    let mut acc: u64 = 0;
    let mut i: usize = 0;
    proof {
        lemma_digits_value_bound(radix, s@);
        lemma_power_monotone(radix_base(radix), s@.len(), 8);
        reveal_with_fuel(power, 9);
        assert(power(16, 8) == 0x1_0000_0000);
        assert(power(10, 8) == 100000000);
    }
    while i < s.len()
        invariant
            i <= s@.len(),
            s@.len() <= 8,
            base == radix_base(radix),
            forall|j: int| 0 <= j < s@.len() ==> is_radix_digit(radix, #[trigger] s@[j]),
            acc == digits_value(radix, s@.subrange(0, i as int)),
            digits_value(radix, s@) < 0x1_0000_0000,
        decreases s@.len() - i,
    {
        let b = s[i];
        let d: u64 = if b >= 0x30 && b <= 0x39 {
            (b - 0x30) as u64
        } else if b >= 0x61 && b <= 0x66 {
            (b - 0x61 + 10) as u64
        } else {
            (b - 0x41 + 10) as u64
        };
        assert(s@.subrange(0, i + 1).drop_last() =~= s@.subrange(0, i as int));
        proof {
            let pre = s@.subrange(0, i + 1);
            assert forall|j: int| 0 <= j < pre.len() implies is_radix_digit(radix, #[trigger] pre[j]) by {
                assert(pre[j] == s@[j]);
            }
            lemma_digits_value_prefix_bound(radix, s@, i as int + 1);
        }
        acc = acc * base + d;
        i = i + 1;
    }
    assert(s@.subrange(0, i as int) =~= s@);
    acc as u32
}

proof fn lemma_digits_value_prefix_bound(radix: CharRefRadix, s: Seq<u8>, n: int)
    requires
        0 <= n <= s.len(),
        forall|i: int| 0 <= i < s.len() ==> is_radix_digit(radix, #[trigger] s[i]),
    ensures digits_value(radix, s.subrange(0, n)) <= digits_value(radix, s),
    decreases s.len() - n,
{
    if n < s.len() {
        lemma_digits_value_prefix_bound(radix, s, n + 1);
        let p = s.subrange(0, n + 1);
        assert(p.drop_last() =~= s.subrange(0, n));
        let v = digits_value(radix, s.subrange(0, n));
        let b = radix_base(radix) as int;
        assert(v <= v * b + digit_value(p.last())) by (nonlinear_arith)
            requires b >= 1, v >= 0;
    } else {
        assert(s.subrange(0, n) =~= s);
    }
}

/// Resolve a character reference with the digits `s` and append the UTF-8
/// encoding of the character to `into`.
fn resolve_char_reference(s: &[u8], radix: CharRefRadix, into: &mut Vec<u8>) -> (r: LexResult<()>)
    requires
        s@.len() <= 8,
        forall|i: int| 0 <= i < s@.len() ==> is_radix_digit(radix, #[trigger] s@[i]),
    ensures
        is_xml_codepoint(digits_value(radix, s@) as u32) ==> r is Ok && final(into)@ == old(
            into,
        )@ + encode_scalar(digits_value(radix, s@) as u32),
        !is_xml_codepoint(digits_value(radix, s@) as u32) ==> r == LexResult::<()>::Err(
            LexError::NotWellFormed(
                XmlError::InvalidChar(ERRCTX_UNKNOWN, digits_value(radix, s@) as u32, true),
            ),
        ) && final(into)@ == old(into)@,
{
    let cp = parse_digits(s, radix);
    let valid = cp == 0x9 || cp == 0xa || cp == 0xd || (0x20 <= cp && cp <= 0xd7ff) || (0xe000
        <= cp && cp <= 0xfffd) || (0x10000 <= cp && cp <= 0x10ffff);
    if !valid {
        return Err(LexError::NotWellFormed(XmlError::InvalidChar(ERRCTX_UNKNOWN, cp, true)));
    }
    push_utf8(into, cp);
    Ok(())
}

/// Append the UTF-8 encoding of a scalar value.
fn push_utf8(into: &mut Vec<u8>, cp: u32)
    requires is_scalar(cp),
    ensures final(into)@ == old(into)@ + encode_scalar(cp),
{
    if cp <= 0x7f {
        into.push((cp & 0x7f) as u8);
    } else if cp <= 0x7ff {
        into.push(0xc0 | ((cp >> 6) & 0x1f) as u8);
        into.push(0x80 | (cp & 0x3f) as u8);
    } else if cp <= 0xffff {
        into.push(0xe0 | ((cp >> 12) & 0x0f) as u8);
        into.push(0x80 | ((cp >> 6) & 0x3f) as u8);
        into.push(0x80 | (cp & 0x3f) as u8);
    } else {
        into.push(0xf0 | ((cp >> 18) & 0x7) as u8);
        into.push(0x80 | ((cp >> 12) & 0x3f) as u8);
        into.push(0x80 | ((cp >> 6) & 0x3f) as u8);
        into.push(0x80 | (cp & 0x3f) as u8);
    }
    assert(final(into)@ =~= old(into)@ + encode_scalar(cp));
}

/// Internal error of the lexer.
#[derive(Debug, Clone, PartialEq, Copy)]
pub enum LexError {
    /// The end of the current buffer was reached before the end of the
    /// document.
    EndOfBuffer,
    /// A grammar violation.
    NotWellFormed(XmlError),
    /// An invalid UTF-8 byte.
    InvalidUtf8Byte(u8),
    /// A forbidden construct.
    RestrictedXml(&'static str),
}

/// Result type of the lexer's internal steps.
pub type LexResult<T> = std::result::Result<T, LexError>;

/// The crate error corresponding to a lexer error.
pub open spec fn lex_error_to_crate(e: LexError) -> Error {
    match e {
        LexError::EndOfBuffer => arbitrary(),
        LexError::NotWellFormed(x) => Error::NotWellFormed(x),
        LexError::InvalidUtf8Byte(b) => Error::InvalidUtf8Byte(b),
        LexError::RestrictedXml(w) => Error::RestrictedXml(w),
    }
}

/// The lexer error with its context replaced.
pub open spec fn lex_error_with_context(e: LexError, ctx: &'static str) -> LexError {
    match e {
        LexError::NotWellFormed(x) => LexError::NotWellFormed(xml_error_with_context(x, ctx)),
        other => other,
    }
}

fn lex_add_context<T>(r: LexResult<T>, ctx: &'static str) -> (out: LexResult<T>)
    ensures
        match r {
            Ok(v) => out == LexResult::<T>::Ok(v),
            Err(e) => out == LexResult::<T>::Err(lex_error_with_context(e, ctx)),
        },
{
    match r {
        Ok(v) => Ok(v),
        Err(LexError::NotWellFormed(x)) => Err(LexError::NotWellFormed(x.with_context(ctx))),
        Err(other) => Err(other),
    }
}

fn handle_eof<T>(v: Option<T>, ctx: &'static str) -> (r: LexResult<T>)
    ensures
        match v {
            Some(x) => r == LexResult::<T>::Ok(x),
            None => r == LexResult::<T>::Err(LexError::NotWellFormed(XmlError::InvalidEof(ctx))),
        },
{
    match v {
        Some(x) => Ok(x),
        None => Err(LexError::NotWellFormed(XmlError::InvalidEof(ctx))),
    }
}

/// Check whether bytes are valid UTF-8, as [`std::str::from_utf8`] does:
/// on success the text is returned, on failure the length of the longest
/// valid prefix (`valid_up_to`).
#[verifier::external_body]
fn str_from_utf8(b: &[u8]) -> (r: std::result::Result<&str, usize>)
    ensures
        match r {
            Ok(s) => valid_utf8(b@) && s.spec_bytes() == b@,
            Err(n) => {
                &&& !valid_utf8(b@)
                &&& n < b@.len()
                &&& valid_utf8(b@.subrange(0, n as int))
                &&& forall|m: int|
                    n < m <= b@.len() ==> !valid_utf8(#[trigger] b@.subrange(0, m))
            },
        },
{
    match std::str::from_utf8(b) {
        Ok(s) => Ok(s),
        Err(e) => Err(e.valid_up_to()),
    }
}

/// Reads the capacity of a vector ([`Vec::capacity`]); the result is at
/// least the length, as documented.
#[verifier::external_body]
fn vec_capacity(v: &Vec<u8>) -> (c: usize)
    ensures c >= v@.len(),
{
    v.capacity()
}

/// Reserves room for `additional` more elements ([`Vec::reserve_exact`]);
/// the contents stay. It panics when the new capacity would exceed
/// `isize::MAX`, which `requires` rules out.
#[verifier::external_body]
fn vec_reserve_exact(v: &mut Vec<u8>, additional: usize)
    requires old(v)@.len() + additional <= isize::MAX,
    ensures final(v)@ == old(v)@,
{
    v.reserve_exact(additional)
}

/// Releases unused capacity ([`Vec::shrink_to_fit`]); the contents stay.
#[verifier::external_body]
pub(crate) fn vec_shrink_to_fit<T>(v: &mut Vec<T>)
    ensures final(v)@ == old(v)@,
{
    v.shrink_to_fit()
}

#[derive(Debug, Clone, Copy, PartialEq, Eq, Structural)]
enum RefKind {
    Entity,
    Char(CharRefRadix),
}

#[derive(Debug, Clone, Copy, PartialEq, Eq, Structural)]
enum ElementState {
    Start,
    /// Only used after `<?xml`.
    SpaceRequired,
    Blank,
    Name,
    Eq,
    Close,
    /// Delimiter and whether a CR was just read (for CRLF normalization).
    AttributeValue(u8, bool),
    /// Encountered `?`.
    MaybeXMLDeclEnd,
    /// Encountered `/`.
    MaybeHeadClose,
}

#[derive(Debug, Clone, Copy, PartialEq, Eq, Structural)]
enum ElementKind {
    /// Element header, e.g. `<foo>`.
    Header,
    /// Element footer, e.g. `</foo>`.
    Footer,
    /// XML declaration.
    XMLDecl,
}

#[derive(Debug, Clone, Copy, PartialEq, Eq, Structural)]
enum MaybeElementState {
    Initial,
    /// Number of correct CDATA section start bytes.
    CDataSectionStart(usize),
    /// Number of correct XML declaration start bytes.
    XMLDeclStart(usize),
}

#[derive(Debug, Clone, Copy, PartialEq, Eq, Structural)]
enum ContentState {
    Initial,
    /// Within a CDATA section.
    CDataSection,
    /// Encountered `<`.
    MaybeElement(MaybeElementState),
    /// Only whitespace allowed, e.g. between `?>` and `<`.
    Whitespace,
    /// Part of `]]>` read, within a CDATA section (true) or not (false).
    MaybeCDataEnd(bool, usize),
    /// `\r` read, within a CDATA section (true) or not (false).
    MaybeCRLF(bool),
}

#[derive(Debug, Clone, Copy, PartialEq, Eq, Structural)]
enum RefReturnState {
    AttributeValue(ElementKind, u8),
    Text,
}

#[derive(Debug, Clone, Copy, PartialEq)]
enum State {
    Content(ContentState),
    Element { kind: ElementKind, state: ElementState },
    /// Encountered `&`.
    Reference { ctx: &'static str, ret: RefReturnState, kind: RefKind },
    Eof,
}

/// The bytes of a reference which the lexer reads from `r` after the
/// `prior` bytes it has already collected, and why it stops.
spec fn ref_scan(kind: RefKind, prior: nat, r: Seq<u8>) -> (Seq<u8>, Seq<u8>, Endbyte) {
    let room = (MAX_REFERENCE_LENGTH - prior) as nat;
    match kind {
        RefKind::Entity => read_validated_spec(&ByteClass::Name, r, room),
        RefKind::Char(CharRefRadix::Decimal) => read_validated_spec(&ByteClass::DecimalDigit, r, room),
        RefKind::Char(CharRefRadix::Hexadecimal) => read_validated_spec(&ByteClass::HexadecimalDigit, r, room),
    }
}

/// The state to which the lexer returns after a reference.
spec fn ref_return_spec(ret: RefReturnState) -> State {
    match ret {
        RefReturnState::AttributeValue(kind, delim) => State::Element {
            kind: kind,
            state: ElementState::AttributeValue(delim, false),
        },
        RefReturnState::Text => State::Content(ContentState::Initial),
    }
}

fn ref_return_to_state(ret: RefReturnState) -> (r: State)
    ensures
        r == ref_return_spec(ret),
        r == match ret {
            RefReturnState::AttributeValue(kind, delim) => State::Element {
                kind: kind,
                state: ElementState::AttributeValue(delim, false),
            },
            RefReturnState::Text => State::Content(ContentState::Initial),
        },
{
    match ret {
        RefReturnState::AttributeValue(kind, delim) => State::Element {
            kind: kind,
            state: ElementState::AttributeValue(delim, false),
        },
        RefReturnState::Text => State::Content(ContentState::Initial),
    }
}

const TOK_XML_DECL_START: [u8; 5] = [0x3c, 0x3f, 0x78, 0x6d, 0x6c];
const TOK_XML_CDATA_START: [u8; 9] = [0x3c, 0x21, 0x5b, 0x43, 0x44, 0x41, 0x54, 0x41, 0x5b];

/// A valid attribute value delimiter.
spec fn is_attval_delim(d: u8) -> bool {
    d == 0x22 || d == 0x27
}

/// The byte class of the contents of an attribute value with delimiter
/// `d`.
spec fn attval_class(d: u8) -> ByteClass {
    if d == 0x22 { ByteClass::AttValQuot } else { ByteClass::AttValApos }
}

/// What the byte `b` which ends a run of attribute value bytes does, with
/// `sp` buffered, the counter at `ctr` and the last token ending at `last`.
spec fn attval_end_spec(sp: Seq<u8>, last: usize, ctr: usize, delim: u8, b: u8, kind: ElementKind, new: &Lexer,
    res: LexResult<ST>) -> bool {
    &&& (b == 0x3c ==> res == LexResult::<ST>::Err(LexError::NotWellFormed(
                XmlError::UnexpectedChar(ERRCTX_ATTVAL, '<', None))))
    &&& (b == 0x26 ==> res == LexResult::<ST>::Ok(ST(State::Reference {
                    ctx: ERRCTX_ATTVAL,
                    ret: RefReturnState::AttributeValue(kind, delim),
                    kind: RefKind::Entity,
                }, None)) && new.swap@ == sp && new.scratchpad@.len() == 0)
    &&& ((b == 0x09 || b == 0x0a) ==> res == LexResult::<ST>::Ok(ST(State::Element {
                    kind: kind, state: ElementState::AttributeValue(delim, false) }, None))
                && new.scratchpad@ == sp.push(0x20))
    &&& (b == 0x0d ==> res == LexResult::<ST>::Ok(ST(State::Element {
                    kind: kind, state: ElementState::AttributeValue(delim, true) }, None))
                && new.scratchpad@ == sp)
    &&& (b == delim ==> new.scratchpad@.len() == 0 && match res {
                Ok(ST(st, Some(Token::AttributeValue(m, v)))) => {
                    &&& st == (State::Element { kind: kind, state: ElementState::SpaceRequired })
                    &&& m.spec_start() == last
                    &&& m.spec_end() == ctr
                    &&& valid_utf8(sp)
                    &&& v@ == decode_utf8(sp)
                },
                Ok(_) => false,
                Err(e) => e matches LexError::InvalidUtf8Byte(_) || e matches LexError::NotWellFormed(_),
            })
    &&& (b == delim ==> (res is Ok <==> valid_utf8(sp)
                && is_valid_cdata(decode_utf8(sp))) && (res matches Err(e) ==> e == text_error(sp)))
    &&& (!(b == 0x3c || b == 0x26 || b == 0x09 || b == 0x0a || b == 0x0d || b == delim) ==> res
                == LexResult::<ST>::Err(LexError::NotWellFormed(XmlError::InvalidChar(ERRCTX_ATTVAL, b as u32, false))))
}

/// Restricted XML 1.0 lexer.
#[derive(Debug)]
pub struct Lexer {
    state: State,
    scratchpad: Vec<u8>,
    swap: Vec<u8>,
    ctr: usize,
    last_token_end: usize,
    opts: LexerOptions,
    err: Option<LexError>,
    has_eof: bool,
}

/// Result of one step: the next state and maybe a token.
struct ST(State, Option<Token>);

impl Lexer {
    /// The invariant of the parts of the lexer which do not depend on its
    /// state.
    closed spec fn base_wf(&self) -> bool {
        &&& 1 <= self.opts.max_token_length <= isize::MAX
        &&& !(self.err matches Some(LexError::EndOfBuffer))
    }

    /// Whether `st` is a consistent state given the buffers of the lexer.
    closed spec fn state_ok(&self, st: State) -> bool {
        &&& (st matches State::Content(ContentState::MaybeElement(MaybeElementState::XMLDeclStart(i))) ==> 2 <= i < 5)
        &&& (st matches State::Content(ContentState::MaybeElement(MaybeElementState::CDataSectionStart(i))) ==> 2 <= i < 9)
        &&& (st matches State::Content(ContentState::MaybeCDataEnd(_, n)) ==> 1 <= n <= 2)
        &&& (st matches State::Element { kind: ElementKind::XMLDecl, state } ==> state != ElementState::Start)
        &&& (st matches State::Element { state: ElementState::AttributeValue(d, _), .. } ==> is_attval_delim(d))
        &&& (st matches State::Reference { ret: RefReturnState::AttributeValue(k, d), .. } ==> is_attval_delim(d) && k != ElementKind::XMLDecl || is_attval_delim(d))
        &&& (st matches State::Reference { kind: RefKind::Char(radix), .. } ==> {
            &&& self.scratchpad@.len() <= MAX_REFERENCE_LENGTH
            &&& forall|i: int| 0 <= i < self.scratchpad@.len() ==> is_radix_digit(radix, #[trigger] self.scratchpad@[i])
        })
        &&& (st matches State::Reference { .. } ==> self.scratchpad@.len() <= MAX_REFERENCE_LENGTH)
        &&& (!(st is Reference) ==> self.swap@.len() == 0)
    }

    /// The invariant of the lexer.
    pub closed spec fn wf(&self) -> bool {
        &&& self.base_wf()
        &&& (self.err is None ==> self.state_ok(self.state))
    }

    /// The position after the last byte consumed (wrapping).
    pub closed spec fn spec_ctr(&self) -> usize {
        self.ctr
    }

    /// The error this lexer returns forever, if it has failed.
    pub closed spec fn cached_error(&self) -> Option<Error> {
        match self.err {
            Some(e) => Some(lex_error_to_crate(e)),
            None => None,
        }
    }

    /// Whether the lexer is as constructed: at the start of the content,
    /// with empty buffers, counters at zero, no error and no end-of-file
    /// flag.
    pub closed spec fn is_fresh(&self) -> bool {
        &&& self.state == State::Content(ContentState::Initial)
        &&& self.scratchpad@.len() == 0
        &&& self.swap@.len() == 0
        &&& self.ctr == 0
        &&& self.last_token_end == 0
        &&& self.err is None
        &&& !self.has_eof
    }

    /// Two fresh lexers with the same options hold the same content, so a
    /// lexer from [`Lexer::new`] is one from [`Lexer::with_options`] with
    /// the default options.
    pub proof fn lemma_fresh_same_content(a: &Lexer, b: &Lexer)
        requires a.is_fresh(), b.is_fresh(), a.options() == b.options(),
        ensures a.same_content(b),
    {
        assert(a.scratchpad@ =~= b.scratchpad@);
        assert(a.swap@ =~= b.swap@);
    }

    /// A lexer's error is never an I/O error: running out of input is not
    /// an error which the lexer keeps.
    pub proof fn lemma_cached_error_not_io(&self)
        requires self.wf(),
        ensures self.cached_error() matches Some(e) ==> !(e is IO),
    {
    }

    /// Whether the lexer has reached the end of the document.
    pub closed spec fn at_end(&self) -> bool {
        self.state is Eof
    }

    /// The options the lexer was made with.
    pub closed spec fn options(&self) -> LexerOptions {
        self.opts
    }

    /// Whether `other` holds the same state, buffered bytes and counters as
    /// this lexer; only the capacity of the buffers may differ.
    pub closed spec fn same_content(&self, other: &Lexer) -> bool {
        &&& other.state == self.state
        &&& other.scratchpad@ == self.scratchpad@
        &&& other.swap@ == self.swap@
        &&& other.ctr == self.ctr
        &&& other.last_token_end == self.last_token_end
        &&& other.opts == self.opts
        &&& other.err == self.err
        &&& other.has_eof == self.has_eof
    }

    /// Whether this lexer answers every later call as `other` does: both
    /// hold the same content, or both hold the same failure, which they
    /// return from then on, and differ at most in the state they failed in.
    pub closed spec fn answers_alike(&self, other: &Lexer) -> bool {
        ||| self.same_content(other)
        ||| self.err is Some && (Lexer { state: other.state, ..*self }).same_content(other)
    }

    /// Construct a new lexer based on [`LexerOptions::default()`].
    pub fn new() -> (r: Lexer)
        ensures
            r.wf(),
            r.is_fresh(),
            r.spec_ctr() == 0,
            r.cached_error() is None,
            !r.at_end(),
            r.options().max_token_length == DEFAULT_MAX_TOKEN_LENGTH,
    {
        Lexer::with_options(LexerOptions::defaults())
    }

    /// Construct a new lexer with the given options.
    pub fn with_options(opts: LexerOptions) -> (r: Lexer)
        requires 1 <= opts.max_token_length <= isize::MAX,
        ensures
            r.wf(),
            r.is_fresh(),
            r.spec_ctr() == 0,
            r.cached_error() is None,
            !r.at_end(),
            r.options() == opts,
    {
        Lexer {
            state: State::Content(ContentState::Initial),
            scratchpad: Vec::new(),
            swap: Vec::new(),
            ctr: 0,
            last_token_end: 0,
            opts: opts,
            err: None,
            has_eof: false,
        }
    }

    /// Everything but the buffers and counters is unchanged, and `new_r`
    /// is what is left of `old_r`, with the counter advanced accordingly.
    closed spec fn frame(&self, new: &Lexer, old_r: Seq<u8>, new_r: Seq<u8>) -> bool {
        &&& new.opts == self.opts
        &&& new.has_eof == self.has_eof
        &&& new.err == self.err
        &&& new.state == self.state
        &&& new.base_wf()
        &&& new_r.len() <= old_r.len()
        &&& new_r == old_r.subrange(old_r.len() - new_r.len(), old_r.len() as int)
        &&& new.ctr == ctr_advance(self.ctr, (old_r.len() - new_r.len()) as nat)
    }

    proof fn lemma_frame_refl(&self, r: Seq<u8>)
        requires self.base_wf(),
        ensures self.frame(self, r, r),
    {
        lemma_ctr_advance_zero(self.ctr);
        assert(r.subrange(0, r.len() as int) =~= r);
    }

    fn demote_eof(&self, ep: Endbyte) -> (r: LexResult<Endbyte>)
        ensures
            ep is Eof && !self.has_eof ==> r == LexResult::<Endbyte>::Err(LexError::EndOfBuffer),
            !(ep is Eof && !self.has_eof) ==> r == LexResult::<Endbyte>::Ok(ep),
    {
        match ep {
            Endbyte::Eof => if self.has_eof {
                Ok(Endbyte::Eof)
            } else {
                Err(LexError::EndOfBuffer)
            },
            other => Ok(other),
        }
    }

    fn token_length_error() -> (r: LexError)
        ensures r == LexError::RestrictedXml("long name or reference"),
    {
        LexError::RestrictedXml("long name or reference")
    }

    fn eat_whitespace_metrics(&mut self, without: usize)
        ensures
            final(self).last_token_end == vstd::wrapping::usize_specs::wrapping_sub(old(self).ctr, without),
            final(self).state == old(self).state,
            final(self).scratchpad == old(self).scratchpad,
            final(self).swap == old(self).swap,
            final(self).ctr == old(self).ctr,
            final(self).opts == old(self).opts,
            final(self).err == old(self).err,
            final(self).has_eof == old(self).has_eof,
    {
        self.last_token_end = self.ctr.wrapping_sub(without);
    }

    /// `new` differs from `self` at most in the capacity of the scratchpad
    /// and in the scratchpad's contents, the counters and the last token
    /// end as stated by the caller.
    closed spec fn same_fixed(&self, new: &Lexer) -> bool {
        &&& new.state == self.state
        &&& new.swap@ == self.swap@
        &&& new.opts == self.opts
        &&& new.err == self.err
        &&& new.has_eof == self.has_eof
    }

    fn prep_scratchpad(&mut self)
        requires old(self).base_wf(),
        ensures
            old(self).same_fixed(final(self)),
            final(self).scratchpad@ == old(self).scratchpad@,
            final(self).ctr == old(self).ctr,
            final(self).last_token_end == old(self).last_token_end,
    {
        let cap = vec_capacity(&self.scratchpad);
        if cap < self.opts.max_token_length {
            vec_reserve_exact(&mut self.scratchpad, self.opts.max_token_length - cap);
        }
    }
}

impl Lexer {
    fn push_scratchpad(&mut self, b: u8)
        requires old(self).base_wf(),
        ensures
            old(self).same_fixed(final(self)),
            final(self).scratchpad@ == old(self).scratchpad@.push(b),
            final(self).ctr == old(self).ctr,
            final(self).last_token_end == old(self).last_token_end,
    {
        self.prep_scratchpad();
        self.scratchpad.push(b);
    }

    /// Read a run of selected bytes into the scratchpad, so that it holds at
    /// most `limit` bytes.
    fn read_validated<B: ByteSelect>(&mut self, r: &mut &[u8], selector: &B, limit: usize) -> (res: LexResult<Endbyte>)
        requires old(self).base_wf(),
        ensures
            old(self).same_fixed(final(self)),
            old(self).frame(final(self), old(r)@, final(r)@),
            final(self).last_token_end == old(self).last_token_end,
            old(self).scratchpad@.len() > limit ==> {
                &&& res == LexResult::<Endbyte>::Ok(Endbyte::Limit)
                &&& final(r)@ == old(r)@
                &&& final(self).scratchpad@ == old(self).scratchpad@
                &&& final(self).ctr == old(self).ctr
            },
            old(self).scratchpad@.len() <= limit ==> {
                let (taken, rest, why) = read_validated_spec(selector, old(r)@, (limit - old(self).scratchpad@.len()) as nat);
                &&& final(self).scratchpad@ == old(self).scratchpad@ + taken
                &&& final(r)@ == rest
                &&& final(self).ctr == ctr_advance(old(self).ctr, (old(r)@.len() - rest.len()) as nat)
                &&& (why is Eof && !old(self).has_eof ==> res == LexResult::<Endbyte>::Err(LexError::EndOfBuffer))
                &&& (!(why is Eof && !old(self).has_eof) ==> res == LexResult::<Endbyte>::Ok(why))
            },
    {
        let remaining = match limit.checked_sub(self.scratchpad.len()) {
            None => {
                proof { old(self).lemma_frame_refl(r@); }
                return Ok(Endbyte::Limit);
            },
            Some(v) => v,
        };
        let old_len = self.scratchpad.len();
        self.prep_scratchpad();
        let ghost old_r = r@;
        let ep = read_validated_bytes(r, selector, remaining, &mut self.scratchpad);
        proof {
            lemma_read_validated_spec(selector, old_r, remaining as nat);
        }
        let added = self.scratchpad.len() - old_len;
        let ghost c0 = self.ctr;
        self.ctr = self.ctr.wrapping_add(added);
        proof { lemma_wrapping_add_is_advance(c0, added); }
        assert(old_r.len() - r@.len() == added + (if ep is Delimiter { 1int } else { 0int }));
        match ep {
            Endbyte::Delimiter(_) => {
                let ghost c1 = self.ctr;
                self.ctr = self.ctr.wrapping_add(1);
                proof {
                    lemma_wrapping_add_is_advance(c1, 1);
                    lemma_ctr_advance_add(c0, added as nat, 1);
                }
            },
            _ => {},
        }
        self.demote_eof(ep)
    }

    fn read_single(&mut self, r: &mut &[u8]) -> (res: LexResult<Option<u8>>)
        requires old(self).base_wf(),
        ensures
            old(self).same_fixed(final(self)),
            old(self).frame(final(self), old(r)@, final(r)@),
            final(self).scratchpad@ == old(self).scratchpad@,
            final(self).last_token_end == old(self).last_token_end,
            old(r)@.len() > 0 ==> {
                &&& res == LexResult::<Option<u8>>::Ok(Some(old(r)@[0]))
                &&& final(r)@ == old(r)@.subrange(1, old(r)@.len() as int)
                &&& final(self).ctr == ctr_advance(old(self).ctr, 1)
            },
            old(r)@.len() == 0 ==> {
                &&& final(r)@ == old(r)@
                &&& final(self).ctr == old(self).ctr
                &&& (old(self).has_eof ==> res == LexResult::<Option<u8>>::Ok(None))
                &&& (!old(self).has_eof ==> res == LexResult::<Option<u8>>::Err(LexError::EndOfBuffer))
            },
    {
        if r.len() > 0 {
            let v = r[0];
            let (_, tail) = r.split_at(1);
            let ghost c0 = self.ctr;
            self.ctr = self.ctr.wrapping_add(1);
            proof { lemma_wrapping_add_is_advance(c0, 1); }
            *r = tail;
            Ok(Some(v))
        } else if self.has_eof {
            proof { old(self).lemma_frame_refl(r@); }
            Ok(None)
        } else {
            proof { old(self).lemma_frame_refl(r@); }
            Err(LexError::EndOfBuffer)
        }
    }

    fn skip_matching<B: ByteSelect>(&mut self, r: &mut &[u8], selector: &B) -> (res: (usize, LexResult<Endbyte>))
        requires old(self).base_wf(),
        ensures
            old(self).same_fixed(final(self)),
            old(self).frame(final(self), old(r)@, final(r)@),
            final(self).scratchpad@ == old(self).scratchpad@,
            final(self).last_token_end == old(self).last_token_end,
            ({
                let (n, rest, why) = skip_matching_spec(selector, old(r)@);
                &&& res.0 == n
                &&& final(r)@ == rest
                &&& final(self).ctr == ctr_advance(old(self).ctr, (old(r)@.len() - rest.len()) as nat)
                &&& (why is Eof && !old(self).has_eof ==> res.1 == LexResult::<Endbyte>::Err(LexError::EndOfBuffer))
                &&& (!(why is Eof && !old(self).has_eof) ==> res.1 == LexResult::<Endbyte>::Ok(why))
            }),
    {
        let ghost old_r = r@;
        let (nread, ep) = skip_matching_bytes(r, selector);
        proof { lemma_skip_matching_spec(selector, old_r); }
        let ghost c0 = self.ctr;
        self.ctr = self.ctr.wrapping_add(nread);
        proof { lemma_wrapping_add_is_advance(c0, nread); }
        match self.demote_eof(ep) {
            Ok(ep) => {
                if let Endbyte::Delimiter(_) = ep {
                    let ghost c1 = self.ctr;
                    self.ctr = self.ctr.wrapping_add(1);
                    proof {
                        lemma_wrapping_add_is_advance(c1, 1);
                        lemma_ctr_advance_add(c0, nread as nat, 1);
                    }
                }
                (nread, Ok(ep))
            },
            Err(e) => (nread, Err(e)),
        }
    }

    fn drop_scratchpad(&mut self)
        ensures
            old(self).same_fixed(final(self)),
            final(self).scratchpad@.len() == 0,
            final(self).ctr == old(self).ctr,
            final(self).last_token_end == old(self).last_token_end,
    {
        self.scratchpad.clear();
    }

    fn swap_scratchpad(&mut self)
        ensures
            final(self).scratchpad@ == old(self).swap@,
            final(self).swap@ == old(self).scratchpad@,
            final(self).state == old(self).state,
            final(self).opts == old(self).opts,
            final(self).err == old(self).err,
            final(self).has_eof == old(self).has_eof,
            final(self).ctr == old(self).ctr,
            final(self).last_token_end == old(self).last_token_end,
    {
        std::mem::swap(&mut self.scratchpad, &mut self.swap);
    }

    fn read_swap(&mut self) -> (r: Vec<u8>)
        ensures
            r@ == old(self).swap@,
            final(self).swap@.len() == 0,
            final(self).scratchpad == old(self).scratchpad,
            final(self).state == old(self).state,
            final(self).opts == old(self).opts,
            final(self).err == old(self).err,
            final(self).has_eof == old(self).has_eof,
            final(self).ctr == old(self).ctr,
            final(self).last_token_end == old(self).last_token_end,
    {
        let mut tmp = Vec::new();
        std::mem::swap(&mut tmp, &mut self.swap);
        tmp
    }

    fn metrics(&mut self, without: usize) -> (m: TokenMetrics)
        ensures
            m.spec_start() == old(self).last_token_end,
            m.spec_end() == vstd::wrapping::usize_specs::wrapping_sub(old(self).ctr, without),
            final(self).last_token_end == m.spec_end(),
            final(self).scratchpad == old(self).scratchpad,
            final(self).swap == old(self).swap,
            final(self).state == old(self).state,
            final(self).opts == old(self).opts,
            final(self).err == old(self).err,
            final(self).has_eof == old(self).has_eof,
            final(self).ctr == old(self).ctr,
    {
        let start = self.last_token_end;
        let end = self.ctr.wrapping_sub(without);
        self.last_token_end = end;
        TokenMetrics { start: start, end: end }
    }

    /// Convert the scratchpad into a name and clear it.
    fn flush_scratchpad_as_name(&mut self) -> (res: LexResult<Name>)
        ensures
            !(res matches Err(LexError::EndOfBuffer)),
            old(self).same_fixed(final(self)),
            final(self).scratchpad@.len() == 0,
            final(self).ctr == old(self).ctr,
            final(self).last_token_end == old(self).last_token_end,
            res matches Ok(n) ==> n@.len() > 0 && valid_utf8(old(self).scratchpad@)
                && decode_utf8(old(self).scratchpad@) == n@,
            res is Ok <==> valid_utf8(old(self).scratchpad@) && is_valid_name(decode_utf8(old(self).scratchpad@)),
            !valid_utf8(old(self).scratchpad@) ==> res matches Err(LexError::InvalidUtf8Byte(_)),
    {
        let result = match str_from_utf8(self.scratchpad.as_slice()) {
            Err(n) => Err(LexError::InvalidUtf8Byte(self.scratchpad[n])),
            Ok(s) => {
                proof { decode_utf8_encode_utf8(self.scratchpad@); }
                match Name::from_str(s) {
                    Ok(name) => Ok(name),
                    Err(e) => Err(LexError::NotWellFormed(e)),
                }
            },
        };
        self.scratchpad.clear();
        result
    }

    /// Convert the scratchpad into character data and clear it.
    fn flush_scratchpad_as_complete_cdata(&mut self) -> (res: LexResult<CData>)
        ensures
            !(res matches Err(LexError::EndOfBuffer)),
            old(self).same_fixed(final(self)),
            final(self).scratchpad@.len() == 0,
            final(self).ctr == old(self).ctr,
            final(self).last_token_end == old(self).last_token_end,
            res matches Ok(c) ==> valid_utf8(old(self).scratchpad@)
                && decode_utf8(old(self).scratchpad@) == c@,
            res is Ok <==> valid_utf8(old(self).scratchpad@) && is_valid_cdata(decode_utf8(old(self).scratchpad@)),
            !valid_utf8(old(self).scratchpad@) ==> res matches Err(LexError::InvalidUtf8Byte(_)),
            valid_utf8(old(self).scratchpad@) && !is_valid_cdata(decode_utf8(old(self).scratchpad@))
                ==> res == LexResult::<CData>::Err(LexError::NotWellFormed(XmlError::from_validation_spec(
                    crate::validation::cdata_error(decode_utf8(old(self).scratchpad@))))),
            res matches Err(e) ==> e == text_error(old(self).scratchpad@),
    {
        let result = match str_from_utf8(self.scratchpad.as_slice()) {
            Err(n) => {
                proof { lemma_utf8_valid_len(self.scratchpad@, n as int); }
                Err(LexError::InvalidUtf8Byte(self.scratchpad[n]))
            },
            Ok(s) => {
                proof { decode_utf8_encode_utf8(self.scratchpad@); }
                match CData::from_str(s) {
                    Ok(c) => Ok(c),
                    Err(e) => Err(LexError::NotWellFormed(e)),
                }
            },
        };
        self.scratchpad.clear();
        result
    }

    /// Convert the longest valid UTF-8 prefix of the scratchpad into
    /// character data and remove it from the scratchpad.
    fn flush_scratchpad_as_partial_cdata(&mut self) -> (res: LexResult<CData>)
        requires old(self).scratchpad@.len() > 0,
        ensures
            !(res matches Err(LexError::EndOfBuffer)),
            old(self).same_fixed(final(self)),
            final(self).ctr == old(self).ctr,
            final(self).last_token_end == old(self).last_token_end,
            final(self).scratchpad@.len() <= old(self).scratchpad@.len(),
            res matches Ok(c) ==> exists|n: int| 0 < n <= old(self).scratchpad@.len()
                && valid_utf8(#[trigger] old(self).scratchpad@.subrange(0, n))
                && decode_utf8(old(self).scratchpad@.subrange(0, n)) == c@
                && final(self).scratchpad@ == old(self).scratchpad@.subrange(n, old(self).scratchpad@.len() as int),
    {
        let ghost sp = self.scratchpad@;
        let (result, to_drop) = match str_from_utf8(self.scratchpad.as_slice()) {
            Ok(s) => {
                proof { decode_utf8_encode_utf8(self.scratchpad@); }
                assert(sp.subrange(0, sp.len() as int) =~= sp);
                let to_drop = self.scratchpad.len();
                (CData::from_str(s), to_drop)
            },
            Err(valid_up_to) => {
                if valid_up_to == 0 {
                    return Err(LexError::InvalidUtf8Byte(self.scratchpad[0]));
                }
                let (prefix, _) = self.scratchpad.as_slice().split_at(valid_up_to);
                let s = unsafe_free_from_utf8(prefix);
                proof { decode_utf8_encode_utf8(prefix@); }
                (CData::from_str(s), valid_up_to)
            },
        };
        match result {
            Ok(c) => {
                let tail = self.scratchpad.split_off(to_drop);
                self.scratchpad = tail;
                Ok(c)
            },
            Err(e) => Err(LexError::NotWellFormed(e)),
        }
    }
}

/// View bytes known to be valid UTF-8 as a string slice.
fn unsafe_free_from_utf8(b: &[u8]) -> (s: &str)
    requires valid_utf8(b@),
    ensures s.spec_bytes() == b@,
{
    match str_from_utf8(b) {
        Ok(s) => s,
        Err(_) => {
            proof { assert(false); }
            ""
        },
    }
}

impl Lexer {
    /// What one step of the lexer guarantees: only the buffers and counters
    /// change, as in [`Lexer::frame`]; a next state is consistent with the
    /// buffers; a step which emits no token consumes input or ends the
    /// document; running out of buffer happens only without the end of file
    /// flag, after everything was consumed.
    closed spec fn step_post(&self, new: &Lexer, old_r: Seq<u8>, new_r: Seq<u8>, res: LexResult<ST>) -> bool {
        &&& self.frame(new, old_r, new_r)
        &&& match res {
            Ok(st) => new.state_ok(st.0) && (st.1 is None ==> (new_r.len() < old_r.len() || st.0 is Eof)),
            Err(LexError::EndOfBuffer) => !self.has_eof && new_r.len() == 0 && new.state_ok(self.state)
                && new.last_token_end == self.last_token_end && new.swap@ == self.swap@
                && new.scratchpad@ == (if skips_blanks(self.state) { self.scratchpad@ } else { self.scratchpad@ + old_r })
                && (old_r.len() > 0 ==> self.scans_runs()),
            Err(_) => true,
        }
    }

    fn maybe_flush_scratchpad_as_text(&mut self, without: usize) -> (res: LexResult<Option<Token>>)
        requires old(self).base_wf(),
        ensures
            !(res matches Err(LexError::EndOfBuffer)),
            old(self).same_fixed(final(self)),
            final(self).ctr == old(self).ctr,
            res is Ok ==> final(self).scratchpad@.len() == 0,
            res matches Ok(t) ==> (t is None <==> old(self).scratchpad@.len() == 0),
            old(self).scratchpad@.len() == 0 ==> res is Ok,
            res matches Ok(Some(t)) ==> (t matches Token::Text(m, c) && valid_utf8(old(self).scratchpad@)
                && decode_utf8(old(self).scratchpad@) == c@ && m.spec_start() == old(self).last_token_end
                && m.spec_end() == vstd::wrapping::usize_specs::wrapping_sub(old(self).ctr, without)),
            old(self).scratchpad@.len() > 0 ==> (res is Ok <==> valid_utf8(old(self).scratchpad@)
                && is_valid_cdata(decode_utf8(old(self).scratchpad@))),
            res matches Err(e) ==> e == text_error(old(self).scratchpad@),
    {
        if self.scratchpad.len() == 0 {
            self.eat_whitespace_metrics(without);
            Ok(None)
        } else {
            let m = self.metrics(without);
            let text = self.flush_scratchpad_as_complete_cdata()?;
            Ok(Some(Token::Text(m, text)))
        }
    }

    /// Emit the longest valid UTF-8 prefix of the scratchpad as a text
    /// token once the scratchpad holds the maximum token length; below that
    /// nothing happens.
    fn flush_limited_scratchpad_as_text(&mut self) -> (res: LexResult<Option<Token>>)
        requires old(self).base_wf(),
        ensures
            !(res matches Err(LexError::EndOfBuffer)),
            old(self).same_fixed(final(self)),
            final(self).ctr == old(self).ctr,
            final(self).scratchpad@.len() <= old(self).scratchpad@.len(),
            old(self).scratchpad@.len() < old(self).opts.max_token_length ==> res == LexResult::<Option<Token>>::Ok(None)
                && final(self).scratchpad@ == old(self).scratchpad@
                && final(self).last_token_end == old(self).last_token_end,
            old(self).scratchpad@.len() >= old(self).opts.max_token_length ==> match res {
                Ok(Some(Token::Text(m, c))) => {
                    &&& m.spec_start() == old(self).last_token_end
                    &&& m.spec_end() == old(self).ctr
                    &&& final(self).last_token_end == old(self).ctr
                    &&& exists|n: int| 0 < n <= old(self).scratchpad@.len()
                        && valid_utf8(#[trigger] old(self).scratchpad@.subrange(0, n))
                        && decode_utf8(old(self).scratchpad@.subrange(0, n)) == c@
                        && final(self).scratchpad@ == old(self).scratchpad@.subrange(n, old(self).scratchpad@.len() as int)
                },
                Ok(_) => false,
                Err(_) => true,
            },
    {
        if self.scratchpad.len() >= self.opts.max_token_length {
            let m = self.metrics(0);
            let text = self.flush_scratchpad_as_partial_cdata()?;
            Ok(Some(Token::Text(m, text)))
        } else {
            Ok(None)
        }
    }

    /// Interpret a byte found inside character data which ended a run:
    /// `<`, `]`, `&` and `\r` lead to a new state; any other byte gives
    /// `None` and no change.
    fn lex_posttext_char(&mut self, b: u8) -> (res: LexResult<Option<ST>>)
        requires
            old(self).base_wf(),
            old(self).swap@.len() == 0,
        ensures
            !(res matches Err(LexError::EndOfBuffer)),
            old(self).same_fixed(final(self)),
            final(self).ctr == old(self).ctr,
            res matches Ok(Some(st)) ==> final(self).state_ok(st.0) && !(st.0 is Eof),
            res matches Ok(None) ==> *final(self) == *old(self) && b != 0x3c && b != 0x5d && b
                != 0x26 && b != 0x0d,
            (b == 0x3c || b == 0x5d || b == 0x26 || b == 0x0d) ==> !(res matches Ok(None)),
            !(b == 0x3c || b == 0x5d || b == 0x26 || b == 0x0d) ==> res == LexResult::<Option<ST>>::Ok(None),
            (b == 0x3c || b == 0x26) ==> (res matches Ok(Some(ST(_, tok))) ==> text_metrics_of(tok,
                old(self).last_token_end, vstd::wrapping::usize_specs::wrapping_sub(old(self).ctr, 1))),
            b == 0x3c ==> match res {
                Ok(Some(ST(st, tok))) => st == State::Content(ContentState::MaybeElement(MaybeElementState::Initial))
                    && final(self).scratchpad@.len() == 0 && (tok is None <==> old(self).scratchpad@.len() == 0)
                    && (tok matches Some(t) ==> (t matches Token::Text(m, c) && valid_utf8(old(self).scratchpad@)
                        && decode_utf8(old(self).scratchpad@) == c@)),
                Ok(None) => false,
                Err(e) => old(self).scratchpad@.len() > 0 && e == text_error(old(self).scratchpad@),
            },
            (b == 0x3c || b == 0x26) ==> (res is Ok <==> (old(self).scratchpad@.len() == 0
                || (valid_utf8(old(self).scratchpad@) && is_valid_cdata(decode_utf8(old(self).scratchpad@))))),
            b == 0x5d ==> res == LexResult::<Option<ST>>::Ok(Some(ST(State::Content(ContentState::MaybeCDataEnd(false, 1)), None)))
                && final(self).scratchpad@ == old(self).scratchpad@,
            b == 0x0d ==> res == LexResult::<Option<ST>>::Ok(Some(ST(State::Content(ContentState::MaybeCRLF(false)), None)))
                && final(self).scratchpad@ == old(self).scratchpad@,
            b == 0x26 ==> match res {
                Ok(Some(ST(st, tok))) => st == (State::Reference { ctx: ERRCTX_TEXT, ret: RefReturnState::Text, kind: RefKind::Entity })
                    && final(self).scratchpad@.len() == 0 && final(self).swap@.len() == 0
                    && (tok is None <==> old(self).scratchpad@.len() == 0)
                    && (tok matches Some(t) ==> (t matches Token::Text(m, c) && valid_utf8(old(self).scratchpad@)
                        && decode_utf8(old(self).scratchpad@) == c@)),
                Ok(None) => false,
                Err(e) => old(self).scratchpad@.len() > 0 && e == text_error(old(self).scratchpad@),
            },
    {
        if b == 0x3c {
            let tok = self.maybe_flush_scratchpad_as_text(1)?;
            Ok(Some(ST(State::Content(ContentState::MaybeElement(MaybeElementState::Initial)), tok)))
        } else if b == 0x5d {
            Ok(Some(ST(State::Content(ContentState::MaybeCDataEnd(false, 1)), None)))
        } else if b == 0x26 {
            let tok = self.maybe_flush_scratchpad_as_text(1)?;
            self.swap_scratchpad();
            assert(self.swap@ =~= old(self).swap@);
            Ok(Some(ST(
                State::Reference {
                    ctx: ERRCTX_TEXT,
                    ret: RefReturnState::Text,
                    kind: RefKind::Entity,
                },
                tok,
            )))
        } else if b == 0x0d {
            Ok(Some(ST(State::Content(ContentState::MaybeCRLF(false)), None)))
        } else {
            Ok(None)
        }
    }
}

/// `t` is the token of the name with the bytes `name`: a name inside an
/// element, or the name of the element at the start of its header or
/// footer.
spec fn name_token_of(kind: ElementKind, state: ElementState, t: Token, name: Seq<u8>) -> bool {
    match t {
        Token::Name(_, n) => state == ElementState::Name && valid_utf8(name) && decode_utf8(name) == n@,
        Token::ElementFootStart(_, n) => state != ElementState::Name && kind == ElementKind::Footer
            && valid_utf8(name) && decode_utf8(name) == n@,
        Token::ElementHeadStart(_, n) => state != ElementState::Name && kind != ElementKind::Footer
            && valid_utf8(name) && decode_utf8(name) == n@,
        _ => false,
    }
}

impl Lexer {
    /// Whether the step in the current state reads a run of bytes, which
    /// may reach the end of the buffer.
    spec fn scans_runs(&self) -> bool {
        match self.state {
            State::Content(ContentState::Initial) => true,
            State::Content(ContentState::CDataSection) => true,
            State::Content(ContentState::Whitespace) => true,
            State::Reference { .. } => true,
            State::Element { state: ElementState::SpaceRequired, .. } => true,
            State::Element { state: ElementState::Blank, .. } => true,
            State::Element { state: ElementState::Start, .. } => self.scratchpad@.len() > 0,
            State::Element { state: ElementState::Name, .. } => self.scratchpad@.len() > 0,
            State::Element { state: ElementState::AttributeValue(_, cr), .. } => !cr,
            _ => false,
        }
    }
}

/// Whether the state skips blanks without keeping them: the whitespace
/// after the XML declaration and the blanks inside an element.
spec fn skips_blanks(st: State) -> bool {
    ||| st == State::Content(ContentState::Whitespace)
    ||| st matches State::Element { state: ElementState::SpaceRequired, .. }
    ||| st matches State::Element { state: ElementState::Blank, .. }
}

/// The length of the longest prefix of `s` which is UTF-8, for bytes `s`
/// which are not.
spec fn utf8_valid_len(s: Seq<u8>) -> int {
    choose|n: int| 0 <= n < s.len() && valid_utf8(s.subrange(0, n))
        && forall|m: int| n < m <= s.len() ==> !valid_utf8(#[trigger] s.subrange(0, m))
}

/// The longest UTF-8 prefix is unique.
proof fn lemma_utf8_valid_len(s: Seq<u8>, n: int)
    requires
        0 <= n < s.len(),
        valid_utf8(s.subrange(0, n)),
        forall|m: int| n < m <= s.len() ==> !valid_utf8(#[trigger] s.subrange(0, m)),
    ensures
        utf8_valid_len(s) == n,
{
    let k = utf8_valid_len(s);
    assert(0 <= k < s.len() && valid_utf8(s.subrange(0, k))
        && forall|m: int| k < m <= s.len() ==> !valid_utf8(#[trigger] s.subrange(0, m)));
    if k < n {
        assert(!valid_utf8(s.subrange(0, n)));
    }
    if n < k {
        assert(!valid_utf8(s.subrange(0, k)));
    }
}

/// The error for the bytes `text` which are no character data: the first
/// byte which is no UTF-8, else the first character which is no XML
/// character.
spec fn text_error(text: Seq<u8>) -> LexError {
    if !valid_utf8(text) {
        LexError::InvalidUtf8Byte(text[utf8_valid_len(text)])
    } else {
        LexError::NotWellFormed(XmlError::from_validation_spec(crate::validation::cdata_error(decode_utf8(text))))
    }
}

/// What emitting the bytes `text` as character data gives: success exactly
/// for no bytes or valid character data, else the error for the text.
spec fn flush_res<T>(text: Seq<u8>, res: LexResult<T>) -> bool {
    &&& (res is Ok <==> (text.len() == 0 || (valid_utf8(text) && is_valid_cdata(decode_utf8(text)))))
    &&& (res matches Err(e) ==> e == text_error(text))
}

/// `tok` is the text token of the bytes `text`: none for no bytes, else a
/// text token with their characters.
spec fn text_token_of(tok: Option<Token>, text: Seq<u8>) -> bool {
    &&& (tok is None <==> text.len() == 0)
    &&& (tok matches Some(t) ==> (t matches Token::Text(_, c) && valid_utf8(text) && decode_utf8(text) == c@))
}

/// A text token in `tok` spans from `start` to `end` in the stream.
spec fn text_metrics_of(tok: Option<Token>, start: usize, end: usize) -> bool {
    tok matches Some(Token::Text(m, _)) ==> m.spec_start() == start && m.spec_end() == end
}

/// What text which holds `text` so far does with the byte `b` after it:
/// markup, references, `]` and `\r` lead to their states (flushing the
/// text before markup and references), other bytes join the text.
spec fn resume_text_post(text: Seq<u8>, start: usize, b: u8, new: &Lexer, res: LexResult<ST>) -> bool {
    if b == 0x3c {
        (res matches Ok(ST(st, tok)) ==> st == State::Content(ContentState::MaybeElement(MaybeElementState::Initial))
            && text_token_of(tok, text) && text_metrics_of(tok, start, vstd::wrapping::usize_specs::wrapping_sub(new.ctr, 1)))
        && flush_res(text, res)
    } else if b == 0x26 {
        (res matches Ok(ST(st, tok)) ==> st == (State::Reference { ctx: ERRCTX_TEXT, ret: RefReturnState::Text,
            kind: RefKind::Entity }) && text_token_of(tok, text)
            && text_metrics_of(tok, start, vstd::wrapping::usize_specs::wrapping_sub(new.ctr, 1)))
        && flush_res(text, res)
    } else if b == 0x5d {
        res == LexResult::<ST>::Ok(ST(State::Content(ContentState::MaybeCDataEnd(false, 1)), None))
            && new.scratchpad@ == text
    } else if b == 0x0d {
        res == LexResult::<ST>::Ok(ST(State::Content(ContentState::MaybeCRLF(false)), None))
            && new.scratchpad@ == text
    } else if spec_is_nonchar_byte(b) {
        res == LexResult::<ST>::Err(LexError::NotWellFormed(XmlError::InvalidChar(ERRCTX_TEXT, b as u32, false)))
    } else {
        res == LexResult::<ST>::Ok(ST(State::Content(ContentState::Initial), None)) && new.scratchpad@ == text.push(b)
    }
}

impl Lexer {
    spec fn maybe_element_post(&self, state: MaybeElementState, new: &Lexer, old_r: Seq<u8>, new_r: Seq<u8>, res: LexResult<ST>) -> bool {
        &&& (old_r.len() > 0 ==> new_r == old_r.subrange(1, old_r.len() as int))
        &&& (old_r.len() > 0 ==> match state {
                MaybeElementState::Initial => {
                    let b = old_r[0];
                    if b == 0x3f {
                        res == LexResult::<ST>::Ok(ST(State::Content(ContentState::MaybeElement(
                            MaybeElementState::XMLDeclStart(2))), None))
                    } else if b == 0x21 {
                        res == LexResult::<ST>::Ok(ST(State::Content(ContentState::MaybeElement(
                            MaybeElementState::CDataSectionStart(2))), None))
                    } else if b == 0x2f {
                        res == LexResult::<ST>::Ok(ST(State::Element { kind: ElementKind::Footer, state: ElementState::Start }, None))
                    } else if spec_is_namestart_byte(b) {
                        res == LexResult::<ST>::Ok(ST(State::Element { kind: ElementKind::Header, state: ElementState::Start }, None))
                            && new.scratchpad@ == self.scratchpad@.push(b)
                    } else {
                        res == LexResult::<ST>::Err(LexError::NotWellFormed(XmlError::UnexpectedByte(ERRCTX_NAMESTART, b, None)))
                    }
                },
                MaybeElementState::XMLDeclStart(i) => {
                    let b = old_r[0];
                    if b != TOK_XML_DECL_START@[i as int] {
                        res == LexResult::<ST>::Err(LexError::RestrictedXml("processing instructions"))
                    } else if i + 1 == 5 {
                        res matches Ok(ST(State::Element { kind: ElementKind::XMLDecl, state: ElementState::SpaceRequired },
                            Some(Token::XMLDeclStart(m)))) && m.spec_start() == self.last_token_end
                            && m.spec_end() == ctr_advance(self.ctr, 1)
                    } else {
                        res == LexResult::<ST>::Ok(ST(State::Content(ContentState::MaybeElement(
                            MaybeElementState::XMLDeclStart((i + 1) as usize))), None))
                    }
                },
                MaybeElementState::CDataSectionStart(i) => {
                    let b = old_r[0];
                    if i == 2 && b == 0x2d {
                        res == LexResult::<ST>::Err(LexError::RestrictedXml("comments"))
                    } else if b != TOK_XML_CDATA_START@[i as int] {
                        res == LexResult::<ST>::Err(LexError::NotWellFormed(XmlError::InvalidSyntax(
                            "malformed cdata section start")))
                    } else if i + 1 == 9 {
                        res == LexResult::<ST>::Ok(ST(State::Content(ContentState::CDataSection), None))
                    } else {
                        res == LexResult::<ST>::Ok(ST(State::Content(ContentState::MaybeElement(
                            MaybeElementState::CDataSectionStart((i + 1) as usize))), None))
                    }
                },
            })
        &&& (old_r.len() == 0 && !self.has_eof ==> res == LexResult::<ST>::Err(LexError::EndOfBuffer))
        &&& (old_r.len() == 0 && self.has_eof ==> res == LexResult::<ST>::Err(LexError::NotWellFormed(
                XmlError::InvalidEof(match state {
                    MaybeElementState::Initial => ERRCTX_ELEMENT,
                    MaybeElementState::XMLDeclStart(_) => ERRCTX_CDATA_SECTION_START,
                    MaybeElementState::CDataSectionStart(_) => ERRCTX_XML_DECL_START,
                }))))
    }

    spec fn cdata_end_post(&self, in_cdata: bool, nend: usize, new: &Lexer, old_r: Seq<u8>, new_r: Seq<u8>, res: LexResult<ST>) -> bool {
        &&& (old_r.len() > 0 && nend == 1 && old_r[0] == 0x5d ==> res == LexResult::<ST>::Ok(ST(
                State::Content(ContentState::MaybeCDataEnd(in_cdata, 2)), None))
                && new.scratchpad@ == self.scratchpad@)
        &&& (old_r.len() > 0 && nend == 2 && old_r[0] == 0x3e && !in_cdata ==> res == LexResult::<ST>::Err(
                LexError::NotWellFormed(XmlError::InvalidSyntax("unescaped ']]>' forbidden in text"))))
        &&& (old_r.len() > 0 && nend == 2 && old_r[0] == 0x3e && in_cdata ==> match res {
                Ok(ST(st, tok)) => st == State::Content(ContentState::Initial) && new.scratchpad@.len() == 0
                    && (tok is None <==> self.scratchpad@.len() == 0),
                Err(e) => self.scratchpad@.len() > 0 && e == text_error(self.scratchpad@),
            })
        &&& (old_r.len() == 0 && self.has_eof ==> res == LexResult::<ST>::Err(LexError::NotWellFormed(
                XmlError::InvalidEof(if in_cdata { ERRCTX_CDATA_SECTION } else { ERRCTX_TEXT }))))
        &&& (old_r.len() == 0 && !self.has_eof ==> res == LexResult::<ST>::Err(LexError::EndOfBuffer))
        &&& (old_r.len() > 0 ==> new_r == old_r.subrange(1, old_r.len() as int))
        &&& (old_r.len() > 0 && nend == 2 && old_r[0] == 0x5d ==> (res matches Ok(ST(st, _)) ==>
                st == State::Content(ContentState::MaybeCDataEnd(in_cdata, 2)))
                && (self.scratchpad@.len() + 1 < self.opts.max_token_length ==> res == LexResult::<ST>::Ok(ST(
                    State::Content(ContentState::MaybeCDataEnd(in_cdata, 2)), None))
                    && new.scratchpad@ == self.scratchpad@.push(0x5d)))
        &&& (old_r.len() > 0 && old_r[0] != 0x5d && !(nend == 2 && old_r[0] == 0x3e) ==> {
                let b = old_r[0];
                let pending = if nend == 2 { self.scratchpad@.push(0x5d).push(0x5d) } else { self.scratchpad@.push(0x5d) };
                if in_cdata {
                    if spec_is_nonchar_byte(b) {
                        res == LexResult::<ST>::Err(LexError::NotWellFormed(XmlError::InvalidChar(ERRCTX_CDATA_SECTION, b as u32, false)))
                    } else {
                        (res matches Ok(ST(st, _)) ==> st == State::Content(ContentState::CDataSection))
                        && (pending.len() + 1 < self.opts.max_token_length ==> res == LexResult::<ST>::Ok(ST(
                            State::Content(ContentState::CDataSection), None)) && new.scratchpad@ == pending.push(b))
                    }
                } else {
                    resume_text_post(pending, self.last_token_end, b, new, res)
                }
            })
    }

    spec fn crlf_post(&self, in_cdata: bool, new: &Lexer, old_r: Seq<u8>, new_r: Seq<u8>, res: LexResult<ST>) -> bool {
        &&& (old_r.len() > 0 && old_r[0] == 0x0a ==> res == LexResult::<ST>::Ok(ST(
                if in_cdata { State::Content(ContentState::CDataSection) } else { State::Content(ContentState::Initial) },
                None)) && new.scratchpad@ == self.scratchpad@.push(0x0a))
        &&& (old_r.len() > 0 && old_r[0] == 0x0d ==> res == LexResult::<ST>::Ok(ST(
                State::Content(ContentState::MaybeCRLF(in_cdata)), None))
                && new.scratchpad@ == self.scratchpad@.push(0x0a))
        &&& (old_r.len() > 0 && in_cdata && old_r[0] == 0x5d ==> res == LexResult::<ST>::Ok(ST(
                State::Content(ContentState::MaybeCDataEnd(true, 1)), None))
                && new.scratchpad@ == self.scratchpad@.push(0x0a))
        &&& (old_r.len() > 0 && in_cdata && old_r[0] != 0x0a && old_r[0] != 0x0d && old_r[0] != 0x5d
                && !spec_is_nonchar_byte(old_r[0]) ==> res == LexResult::<ST>::Ok(ST(
                State::Content(ContentState::CDataSection), None))
                && new.scratchpad@ == self.scratchpad@.push(0x0a).push(old_r[0]))
        &&& (old_r.len() > 0 && in_cdata && spec_is_nonchar_byte(old_r[0]) ==> res == LexResult::<ST>::Err(
                LexError::NotWellFormed(XmlError::InvalidChar(ERRCTX_CDATA_SECTION, old_r[0] as u32, false))))
        &&& (old_r.len() == 0 && self.has_eof ==> res == LexResult::<ST>::Err(LexError::NotWellFormed(
                XmlError::InvalidEof(ERRCTX_TEXT))))
        &&& (old_r.len() == 0 && !self.has_eof ==> res == LexResult::<ST>::Err(LexError::EndOfBuffer))
        &&& (old_r.len() > 0 ==> new_r == old_r.subrange(1, old_r.len() as int))
        &&& (old_r.len() > 0 && !in_cdata && old_r[0] != 0x0a && old_r[0] != 0x0d ==>
                resume_text_post(self.scratchpad@.push(0x0a), self.last_token_end, old_r[0], new, res))
    }

    spec fn element_post(&self, kind: ElementKind, state: ElementState, new: &Lexer, old_r: Seq<u8>, new_r: Seq<u8>, res: LexResult<ST>) -> bool {
        &&& ((state == ElementState::Start || state == ElementState::Name) && self.scratchpad@.len() == 0
                && old_r.len() > 0 && !spec_is_namestart_byte(old_r[0])
                ==> res == LexResult::<ST>::Err(LexError::NotWellFormed(XmlError::UnexpectedByte(ERRCTX_NAME, old_r[0], None))))
        &&& ((state == ElementState::Start || state == ElementState::Name) && self.scratchpad@.len() == 0
                && old_r.len() > 0 && spec_is_namestart_byte(old_r[0])
                ==> res == LexResult::<ST>::Ok(ST(State::Element { kind: kind, state: state }, None))
                && new.scratchpad@ == seq![old_r[0]] && new_r == old_r.subrange(1, old_r.len() as int))
        &&& ((state == ElementState::Start || state == ElementState::Name) && self.scratchpad@.len() == 0
                && old_r.len() == 0 && !self.has_eof ==> res == LexResult::<ST>::Err(LexError::EndOfBuffer))
        &&& ((state == ElementState::Start || state == ElementState::Name) && self.scratchpad@.len() == 0
                && old_r.len() == 0 && self.has_eof
                ==> res == LexResult::<ST>::Err(LexError::NotWellFormed(XmlError::InvalidEof(ERRCTX_NAME))))
        &&& (state == ElementState::Eq ==> (res matches Ok(ST(State::Element { kind: k, state: ElementState::Blank },
                Some(Token::Eq(m)))) && k == kind && m.spec_start() == self.last_token_end
                && m.spec_end() == self.ctr && new_r == old_r))
        &&& (state == ElementState::Close ==> (res matches Ok(ST(State::Content(ContentState::Initial),
                Some(Token::ElementHFEnd(m)))) && m.spec_start() == self.last_token_end
                && m.spec_end() == self.ctr && new_r == old_r))
        &&& ((state == ElementState::MaybeXMLDeclEnd || state == ElementState::MaybeHeadClose) && old_r.len() > 0
                && old_r[0] != 0x3e ==> (res matches Err(LexError::NotWellFormed(XmlError::UnexpectedByte(c, b, _)))
                && b == old_r[0]
                && c == (if state == ElementState::MaybeXMLDeclEnd { ERRCTX_XML_DECL_END } else { ERRCTX_ELEMENT_CLOSE })))
        &&& (state == ElementState::MaybeXMLDeclEnd && old_r.len() > 0 && old_r[0] == 0x3e ==> (res matches Ok(ST(
                State::Content(ContentState::Whitespace), Some(Token::XMLDeclEnd(m))))
                && m.spec_start() == self.last_token_end && m.spec_end() == ctr_advance(self.ctr, 1)))
        &&& (state == ElementState::MaybeHeadClose && old_r.len() > 0 && old_r[0] == 0x3e ==> (res matches Ok(ST(
                State::Content(ContentState::Initial), Some(Token::ElementHeadClose(m))))
                && m.spec_start() == self.last_token_end && m.spec_end() == ctr_advance(self.ctr, 1)))
        &&& ((state == ElementState::MaybeXMLDeclEnd || state == ElementState::MaybeHeadClose) && old_r.len() == 0
                && !self.has_eof ==> res == LexResult::<ST>::Err(LexError::EndOfBuffer))
        &&& ((state == ElementState::MaybeXMLDeclEnd || state == ElementState::MaybeHeadClose) && old_r.len() == 0
                && self.has_eof ==> res == LexResult::<ST>::Err(LexError::NotWellFormed(XmlError::InvalidEof(
                if state == ElementState::MaybeXMLDeclEnd { ERRCTX_XML_DECL_END } else { ERRCTX_ELEMENT_CLOSE }))))
        &&& ((state == ElementState::MaybeXMLDeclEnd || state == ElementState::MaybeHeadClose) && old_r.len() > 0
                ==> new_r == old_r.subrange(1, old_r.len() as int))
        &&& ((state == ElementState::Start || state == ElementState::Name) ==> self.name_post(kind, state, new, old_r, new_r, res))
        &&& (state matches ElementState::AttributeValue(d, c) ==> self.attval_post(kind, d, c, new, old_r, new_r, res))
        &&& ((state == ElementState::SpaceRequired || state == ElementState::Blank) ==> self.blank_post(kind, state, new, old_r, new_r, res))
    }

    spec fn reference_post(&self, ctx: &'static str, ret: RefReturnState, kind: RefKind, new: &Lexer, old_r: Seq<u8>, new_r: Seq<u8>, res: LexResult<ST>) -> bool {
        &&& (({
                let scan = ref_scan(kind, self.scratchpad@.len(), old_r);
                let name = self.scratchpad@ + scan.0;
                &&& (scan.2 is Limit ==> res == LexResult::<ST>::Err(LexError::NotWellFormed(XmlError::UndeclaredEntity)))
                &&& (scan.2 is Eof && self.has_eof ==> res == LexResult::<ST>::Err(
                    LexError::NotWellFormed(XmlError::InvalidEof(ERRCTX_REF))))
                &&& (scan.2 is Eof && !self.has_eof ==> res == LexResult::<ST>::Err(LexError::EndOfBuffer))
                &&& (scan.2 == Endbyte::Delimiter(0x3b) && name.len() == 0 ==> res == LexResult::<ST>::Err(
                    LexError::NotWellFormed(XmlError::InvalidSyntax("empty reference"))))
                &&& (scan.2 == Endbyte::Delimiter(0x3b) && name.len() > 0 && kind == RefKind::Entity ==> match named_entity_spec(name) {
                    Some(c) => res == LexResult::<ST>::Ok(ST(ref_return_spec(ret), None))
                        && new.scratchpad@ == self.swap@.push(c),
                    None => res == LexResult::<ST>::Err(LexError::NotWellFormed(XmlError::UndeclaredEntity)),
                })
                &&& (scan.2 matches Endbyte::Delimiter(b) ==> (b != 0x23 && b != 0x78 && b != 0x3b ==> (res matches
                    Err(LexError::NotWellFormed(XmlError::UnexpectedByte(c, bb, _))) && c == ERRCTX_REF && bb == b)))
                &&& new_r == scan.1
                &&& (scan.2 == Endbyte::Delimiter(0x23) ==> if name.len() == 0 && kind == RefKind::Entity {
                        res == LexResult::<ST>::Ok(ST(State::Reference { ctx: ctx, ret: ret,
                            kind: RefKind::Char(CharRefRadix::Decimal) }, None))
                    } else {
                        res matches Err(LexError::NotWellFormed(XmlError::UnexpectedByte(c, bb, _))) && c == ERRCTX_REF && bb == 0x23
                    })
                &&& (scan.2 == Endbyte::Delimiter(0x78) ==> if name.len() == 0 && kind == RefKind::Char(CharRefRadix::Decimal) {
                        res == LexResult::<ST>::Ok(ST(State::Reference { ctx: ctx, ret: ret,
                            kind: RefKind::Char(CharRefRadix::Hexadecimal) }, None))
                    } else {
                        res matches Err(LexError::NotWellFormed(XmlError::UnexpectedByte(c, bb, _))) && c == ERRCTX_REF && bb == 0x78
                    })
                &&& (scan.2 == Endbyte::Delimiter(0x3b) && name.len() > 0 ==> (kind matches RefKind::Char(radix) ==> {
                        let v = digits_value(radix, name) as u32;
                        if is_xml_codepoint(v) {
                            res == LexResult::<ST>::Ok(ST(ref_return_spec(ret), None))
                                && new.scratchpad@ == self.swap@ + encode_scalar(v)
                        } else {
                            res == LexResult::<ST>::Err(lex_error_with_context(LexError::NotWellFormed(
                                XmlError::InvalidChar(ERRCTX_UNKNOWN, v, true)), ctx))
                        }
                    }))
            }))
    }

    /// What lexing the rest of a name from `old_r` does: the name bytes
    /// join those buffered, up to the token length limit; the byte after
    /// them decides the next state in the element; the name is emitted as
    /// a token (the element's name at the start of a header or footer).
    spec fn name_post(&self, kind: ElementKind, state: ElementState, new: &Lexer, old_r: Seq<u8>, new_r: Seq<u8>,
        res: LexResult<ST>) -> bool {
        let limit = self.opts.max_token_length;
        let sp = self.scratchpad@;
        let (taken, rest, why) = read_validated_spec(&ByteClass::Name, old_r, (limit - sp.len()) as nat);
        let name = sp + taken;
        &&& (sp.len() > limit ==> res == LexResult::<ST>::Err(LexError::RestrictedXml("long name or reference")))
        &&& (sp.len() > 0 && sp.len() <= limit ==> {
            &&& (why is Limit ==> res == LexResult::<ST>::Err(LexError::RestrictedXml("long name or reference")))
            &&& (why is Eof && self.has_eof ==> res == LexResult::<ST>::Err(LexError::NotWellFormed(
                XmlError::InvalidEof(ERRCTX_NAME))))
            &&& (why is Eof && !self.has_eof ==> res == LexResult::<ST>::Err(LexError::EndOfBuffer))
            &&& (!(why is Eof) ==> !(res matches Err(LexError::EndOfBuffer)))
            &&& (why matches Endbyte::Delimiter(ch) ==> match postblank_spec(kind, ch) {
                Err(e) => res == LexResult::<ST>::Err(LexError::NotWellFormed(e)),
                Ok(ns) => (res matches Ok(ST(st, tok)) ==> (st == (State::Element { kind: kind, state: ns })
                    && (tok matches Some(t) && name_token_of(kind, state, t, name)
                        && token_metrics_spec(t).spec_start() == self.last_token_end
                        && token_metrics_spec(t).spec_end() == vstd::wrapping::usize_specs::wrapping_sub(new.ctr, 1))))
                    && (res is Ok <==> valid_utf8(name) && is_valid_name(decode_utf8(name))),
            })
            &&& new_r == rest
        })
    }

    /// What lexing an attribute value from `old_r` does: the bytes of the
    /// value join those buffered (the expanded value so far), up to the
    /// token length limit; a carriage return is examined further; the byte
    /// which ends the run decides as [`attval_end_spec`] says.
    spec fn attval_post(&self, kind: ElementKind, delim: u8, cr: bool, new: &Lexer, old_r: Seq<u8>, new_r: Seq<u8>, res: LexResult<ST>) -> bool {
        let limit = self.opts.max_token_length;
        let sp = self.scratchpad@;
        let (taken, rest, why) = read_validated_spec(&attval_class(delim), old_r, (limit - sp.len()) as nat);
        &&& (cr && old_r.len() > 0 && old_r[0] == 0x0d ==> res == LexResult::<ST>::Ok(ST(State::Element {
                kind: kind, state: ElementState::AttributeValue(delim, true) }, None))
            && new.scratchpad@ == sp.push(0x20))
        &&& (cr && old_r.len() > 0 && old_r[0] != 0x0d ==> attval_end_spec(sp, self.last_token_end,
            ctr_advance(self.ctr, 1), delim, old_r[0], kind, new, res))
        &&& (cr && old_r.len() == 0 && self.has_eof ==> res == LexResult::<ST>::Err(LexError::NotWellFormed(
            XmlError::InvalidEof(ERRCTX_ATTVAL))))
        &&& (cr && old_r.len() == 0 && !self.has_eof ==> res == LexResult::<ST>::Err(LexError::EndOfBuffer))
        &&& (!cr && sp.len() > limit ==> res == LexResult::<ST>::Err(LexError::RestrictedXml("long name or reference")))
        &&& (cr && old_r.len() > 0 ==> new_r == old_r.subrange(1, old_r.len() as int))
        &&& (!cr && sp.len() <= limit ==> {
            &&& new_r == rest
            &&& (why is Limit ==> res == LexResult::<ST>::Err(LexError::RestrictedXml("long name or reference")))
            &&& (why is Eof && self.has_eof ==> res == LexResult::<ST>::Err(LexError::NotWellFormed(
                XmlError::InvalidEof(ERRCTX_ATTVAL))))
            &&& (why is Eof && !self.has_eof ==> res == LexResult::<ST>::Err(LexError::EndOfBuffer))
            &&& (why matches Endbyte::Delimiter(c) ==> attval_end_spec(sp + taken, self.last_token_end,
                ctr_advance(self.ctr, (old_r.len() - rest.len()) as nat), delim, c, kind, new, res))
        })
    }

    /// What lexing inside a CDATA section from `old_r` does: the run of
    /// section bytes joins the buffered text, which is emitted at the token
    /// length limit; `]` and a carriage return are examined further; any
    /// other byte which ends the run is an error.
    spec fn cdata_post(&self, new: &Lexer, old_r: Seq<u8>, new_r: Seq<u8>, res: LexResult<ST>) -> bool {
        let limit = self.opts.max_token_length;
        let (taken, rest, why) = read_validated_spec(&ByteClass::CDataSection, old_r, (limit - self.scratchpad@.len()) as nat);
        let text = self.scratchpad@ + taken;
        self.scratchpad@.len() <= limit ==> new_r == rest && (!(why is Eof) ==> !(res matches Err(LexError::EndOfBuffer)))
            && match why {
            Endbyte::Limit => (res matches Ok(ST(st, tok)) ==> st == State::Content(ContentState::CDataSection)
                && text_token_of(tok, text))
                && flush_res(text, res),
            Endbyte::Eof => if self.has_eof {
                res == LexResult::<ST>::Err(LexError::NotWellFormed(XmlError::InvalidEof(ERRCTX_CDATA_SECTION)))
            } else {
                res == LexResult::<ST>::Err(LexError::EndOfBuffer) && new.scratchpad@ == text
            },
            Endbyte::Delimiter(b) => if b == 0x5d {
                res == LexResult::<ST>::Ok(ST(State::Content(ContentState::MaybeCDataEnd(true, 1)), None))
                    && new.scratchpad@ == text
            } else if b == 0x0d {
                res == LexResult::<ST>::Ok(ST(State::Content(ContentState::MaybeCRLF(true)), None))
                    && new.scratchpad@ == text
            } else {
                res == LexResult::<ST>::Err(LexError::NotWellFormed(XmlError::InvalidChar(ERRCTX_CDATA_SECTION, b as u32, false)))
            },
        }
    }

    /// What lexing the whitespace after the XML declaration from `old_r`
    /// does: spaces are skipped; `<` starts the root element, the end of
    /// the document ends it, any other byte is an error.
    spec fn whitespace_post(&self, old_r: Seq<u8>, new_r: Seq<u8>, res: LexResult<ST>) -> bool {
        let (n, rest, why) = skip_matching_spec(&ByteClass::Space, old_r);
        new_r == rest && match why {
            Endbyte::Delimiter(b) => if b == 0x3c {
                res == LexResult::<ST>::Ok(ST(State::Content(ContentState::MaybeElement(MaybeElementState::Initial)), None))
            } else {
                res matches Err(LexError::NotWellFormed(XmlError::UnexpectedByte(c, bb, _))) && c == ERRCTX_XML_DECL_END && bb == b
            },
            _ => if self.has_eof {
                res == LexResult::<ST>::Ok(ST(State::Eof, None))
            } else {
                res == LexResult::<ST>::Err(LexError::EndOfBuffer)
            },
        }
    }

    /// What lexing the blanks inside an element from `old_r` does: spaces
    /// are skipped; the byte after them decides the next state as
    /// [`postblank_spec`] says, where a name needs a space before it after
    /// a value.
    spec fn blank_post(&self, kind: ElementKind, state: ElementState, new: &Lexer, old_r: Seq<u8>, new_r: Seq<u8>, res: LexResult<ST>) -> bool {
        let (n, rest, why) = skip_matching_spec(&ByteClass::Space, old_r);
        new_r == rest && match why {
            Endbyte::Delimiter(b) => match postblank_spec(kind, b) {
                Err(e) => res == LexResult::<ST>::Err(LexError::NotWellFormed(e)),
                Ok(ns) => if ns == ElementState::Name && state == ElementState::SpaceRequired && n == 0 {
                    res == LexResult::<ST>::Err(LexError::NotWellFormed(XmlError::InvalidSyntax(
                        "space required before attribute names")))
                } else {
                    res == LexResult::<ST>::Ok(ST(State::Element { kind: kind, state: ns }, None))
                        && (ns == ElementState::Name ==> new.scratchpad@ == self.scratchpad@.push(b))
                        && (ns != ElementState::Name ==> new.scratchpad@ == self.scratchpad@)
                        && new.last_token_end == vstd::wrapping::usize_specs::wrapping_sub(new.ctr, 1)
                        && new.swap@ == self.swap@
                },
            },
            _ => if self.has_eof {
                res == LexResult::<ST>::Err(LexError::NotWellFormed(XmlError::InvalidEof(ERRCTX_ELEMENT)))
            } else if n > 0 && state == ElementState::SpaceRequired {
                res == LexResult::<ST>::Ok(ST(State::Element { kind: kind, state: ElementState::Blank }, None))
                    && new.scratchpad@ == self.scratchpad@
                    && new.last_token_end == self.last_token_end && new.swap@ == self.swap@
            } else {
                res == LexResult::<ST>::Err(LexError::EndOfBuffer)
            },
        }
    }

    /// What lexing character data from `old_r` does: the run of text bytes
    /// (up to the token length limit) joins the buffered text; at the limit
    /// the text is emitted as a token of its own and lexing goes on; `<`
    /// and `&` end the text and emit it, `]` and a carriage return are
    /// examined further, any other byte which is no text is an error.
    spec fn text_post(&self, new: &Lexer, old_r: Seq<u8>, new_r: Seq<u8>, res: LexResult<ST>) -> bool {
        let limit = self.opts.max_token_length;
        let (taken, rest, why) = read_validated_spec(&ByteClass::Text, old_r, (limit - self.scratchpad@.len()) as nat);
        let text = self.scratchpad@ + taken;
        self.scratchpad@.len() <= limit ==> new_r == rest && (!(why is Eof) ==> !(res matches Err(LexError::EndOfBuffer)))
            && match why {
            Endbyte::Limit => (res matches Ok(ST(st, tok)) ==> st == State::Content(ContentState::Initial)
                && text_token_of(tok, text) && text_metrics_of(tok, self.last_token_end, new.ctr))
                && flush_res(text, res),
            Endbyte::Eof => if self.has_eof {
                (res matches Ok(ST(st, tok)) ==> st is Eof && text_token_of(tok, text)
                    && text_metrics_of(tok, self.last_token_end, new.ctr))
                && flush_res(text, res)
            } else {
                res == LexResult::<ST>::Err(LexError::EndOfBuffer) && new.scratchpad@ == text
            },
            Endbyte::Delimiter(b) => if b == 0x3c {
                (res matches Ok(ST(st, tok)) ==> st == State::Content(ContentState::MaybeElement(MaybeElementState::Initial))
                    && new.scratchpad@.len() == 0 && text_token_of(tok, text)
                    && text_metrics_of(tok, self.last_token_end, vstd::wrapping::usize_specs::wrapping_sub(new.ctr, 1)))
                && flush_res(text, res)
            } else if b == 0x26 {
                (res matches Ok(ST(st, tok)) ==> st == (State::Reference { ctx: ERRCTX_TEXT, ret: RefReturnState::Text,
                    kind: RefKind::Entity }) && text_token_of(tok, text)
                    && text_metrics_of(tok, self.last_token_end, vstd::wrapping::usize_specs::wrapping_sub(new.ctr, 1)))
                && flush_res(text, res)
            } else if b == 0x5d {
                res == LexResult::<ST>::Ok(ST(State::Content(ContentState::MaybeCDataEnd(false, 1)), None))
                    && new.scratchpad@ == text
            } else if b == 0x0d {
                res == LexResult::<ST>::Ok(ST(State::Content(ContentState::MaybeCRLF(false)), None))
                    && new.scratchpad@ == text
            } else {
                res == LexResult::<ST>::Err(LexError::NotWellFormed(XmlError::InvalidChar(ERRCTX_TEXT, b as u32, false)))
            },
        }
    }
}

impl Lexer {
    #[verifier::rlimit(30)]
    fn lex_maybe_element(&mut self, state: MaybeElementState, r: &mut &[u8]) -> (res: LexResult<ST>)
        requires
            old(self).wf(),
            old(self).err is None,
            old(self).state == State::Content(ContentState::MaybeElement(state)),
        ensures
            old(self).step_post(final(self), old(r)@, final(r)@, res),
            old(self).maybe_element_post(state, final(self), old(r)@, final(r)@, res),
    {
        let ghost r0 = r@;
        match state {
            MaybeElementState::Initial => match self.read_single(r)? {
                Some(byte) => {
                    if byte == 0x3f {
                        self.drop_scratchpad();
                        Ok(ST(State::Content(ContentState::MaybeElement(MaybeElementState::XMLDeclStart(2))), None))
                    } else if byte == 0x21 {
                        self.drop_scratchpad();
                        Ok(ST(State::Content(ContentState::MaybeElement(MaybeElementState::CDataSectionStart(2))), None))
                    } else if byte == 0x2f {
                        self.drop_scratchpad();
                        Ok(ST(State::Element { kind: ElementKind::Footer, state: ElementState::Start }, None))
                    } else if is_namestart_byte(byte) {
                        self.push_scratchpad(byte);
                        Ok(ST(State::Element { kind: ElementKind::Header, state: ElementState::Start }, None))
                    } else {
                        self.drop_scratchpad();
                        Err(LexError::NotWellFormed(XmlError::UnexpectedByte(ERRCTX_NAMESTART, byte, None)))
                    }
                },
                None => Err(LexError::NotWellFormed(XmlError::InvalidEof(ERRCTX_ELEMENT))),
            },
            MaybeElementState::XMLDeclStart(i) => {
                let b = handle_eof(self.read_single(r)?, ERRCTX_CDATA_SECTION_START)?;
                if b != TOK_XML_DECL_START[i] {
                    return Err(LexError::RestrictedXml("processing instructions"));
                }
                let next = i + 1;
                if next == 5 {
                    self.drop_scratchpad();
                    let m = self.metrics(0);
                    Ok(ST(
                        State::Element { kind: ElementKind::XMLDecl, state: ElementState::SpaceRequired },
                        Some(Token::XMLDeclStart(m)),
                    ))
                } else {
                    Ok(ST(State::Content(ContentState::MaybeElement(MaybeElementState::XMLDeclStart(next))), None))
                }
            },
            MaybeElementState::CDataSectionStart(i) => {
                let b = handle_eof(self.read_single(r)?, ERRCTX_XML_DECL_START)?;
                if i == 2 && b == 0x2d {
                    return Err(LexError::RestrictedXml("comments"));
                } else if b != TOK_XML_CDATA_START[i] {
                    return Err(LexError::NotWellFormed(XmlError::InvalidSyntax("malformed cdata section start")));
                }
                let next = i + 1;
                if next == 9 {
                    self.drop_scratchpad();
                    let tok = self.maybe_flush_scratchpad_as_text(9)?;
                    Ok(ST(State::Content(ContentState::CDataSection), tok))
                } else {
                    Ok(ST(State::Content(ContentState::MaybeElement(MaybeElementState::CDataSectionStart(next))), None))
                }
            },
        }
    }

    fn lex_resume_text(&mut self, b: u8) -> (res: LexResult<ST>)
        requires
            old(self).base_wf(),
            old(self).swap@.len() == 0,
        ensures
            !(res matches Err(LexError::EndOfBuffer)),
            old(self).same_fixed(final(self)),
            final(self).ctr == old(self).ctr,
            res matches Ok(st) ==> final(self).state_ok(st.0) && !(st.0 is Eof),
            resume_text_post(old(self).scratchpad@, old(self).last_token_end, b, final(self), res),
    {
        match self.lex_posttext_char(b)? {
            Some(st) => Ok(st),
            None => if is_nonchar_byte(b) {
                Err(LexError::NotWellFormed(XmlError::InvalidChar(ERRCTX_TEXT, b as u32, false)))
            } else {
                self.push_scratchpad(b);
                Ok(ST(State::Content(ContentState::Initial), None))
            },
        }
    }
}

impl Lexer {
    #[verifier::rlimit(40)]
    fn lex_maybe_cdata_end(&mut self, in_cdata: bool, nend: usize, r: &mut &[u8]) -> (res: LexResult<ST>)
        requires
            old(self).wf(),
            old(self).err is None,
            old(self).state == State::Content(ContentState::MaybeCDataEnd(in_cdata, nend)),
        ensures
            old(self).step_post(final(self), old(r)@, final(r)@, res),
            old(self).cdata_end_post(in_cdata, nend, final(self), old(r)@, final(r)@, res),
    {
        let ctx = if in_cdata { ERRCTX_CDATA_SECTION } else { ERRCTX_TEXT };
        let b = handle_eof(self.read_single(r)?, ctx)?;
        let expected: u8 = if nend == 2 { 0x3e } else { 0x5d };
        if b == expected {
            if nend == 1 {
                Ok(ST(State::Content(ContentState::MaybeCDataEnd(in_cdata, 2)), None))
            } else if !in_cdata {
                Err(LexError::NotWellFormed(XmlError::InvalidSyntax("unescaped ']]>' forbidden in text")))
            } else {
                let tok = self.maybe_flush_scratchpad_as_text(0)?;
                Ok(ST(State::Content(ContentState::Initial), tok))
            }
        } else if b == 0x5d {
            self.push_scratchpad(0x5d);
            let tok = self.flush_limited_scratchpad_as_text()?;
            Ok(ST(State::Content(ContentState::MaybeCDataEnd(in_cdata, nend)), tok))
        } else {
            self.push_scratchpad(0x5d);
            if nend == 2 {
                self.push_scratchpad(0x5d);
            }
            if in_cdata {
                if is_nonchar_byte(b) {
                    Err(LexError::NotWellFormed(XmlError::InvalidChar(ERRCTX_CDATA_SECTION, b as u32, false)))
                } else {
                    self.push_scratchpad(b);
                    let tok = self.flush_limited_scratchpad_as_text()?;
                    Ok(ST(State::Content(ContentState::CDataSection), tok))
                }
            } else {
                self.lex_resume_text(b)
            }
        }
    }

    #[verifier::rlimit(40)]
    fn lex_maybe_crlf(&mut self, in_cdata: bool, r: &mut &[u8]) -> (res: LexResult<ST>)
        requires
            old(self).wf(),
            old(self).err is None,
            old(self).state == State::Content(ContentState::MaybeCRLF(in_cdata)),
        ensures
            old(self).step_post(final(self), old(r)@, final(r)@, res),
            old(self).crlf_post(in_cdata, final(self), old(r)@, final(r)@, res),
    {
        let b = handle_eof(self.read_single(r)?, ERRCTX_TEXT)?;
        if b == 0x0a {
            self.push_scratchpad(0x0a);
            Ok(ST(
                if in_cdata {
                    State::Content(ContentState::CDataSection)
                } else {
                    State::Content(ContentState::Initial)
                },
                None,
            ))
        } else if b == 0x0d {
            self.push_scratchpad(0x0a);
            Ok(ST(State::Content(ContentState::MaybeCRLF(in_cdata)), None))
        } else {
            self.push_scratchpad(0x0a);
            if in_cdata {
                if b == 0x5d {
                    Ok(ST(State::Content(ContentState::MaybeCDataEnd(true, 1)), None))
                } else if !is_nonchar_byte(b) {
                    self.push_scratchpad(b);
                    Ok(ST(State::Content(ContentState::CDataSection), None))
                } else {
                    Err(LexError::NotWellFormed(XmlError::InvalidChar(ERRCTX_CDATA_SECTION, b as u32, false)))
                }
            } else {
                self.lex_resume_text(b)
            }
        }
    }

    #[verifier::rlimit(40)]
    fn lex_text(&mut self, r: &mut &[u8]) -> (res: LexResult<ST>)
        requires
            old(self).wf(),
            old(self).err is None,
            old(self).state == State::Content(ContentState::Initial),
        ensures
            old(self).step_post(final(self), old(r)@, final(r)@, res),
            old(self).text_post(final(self), old(r)@, final(r)@, res),
    {
        let ghost r0 = r@;
        let ghost sp0 = self.scratchpad@;
        let limit = self.opts.max_token_length;
        let rv = self.read_validated(r, &ByteClass::Text, limit);
        proof {
            if sp0.len() <= limit {
                lemma_read_validated_spec(&ByteClass::Text, r0, (limit - sp0.len()) as nat);
            }
        }
        match rv? {
            Endbyte::Eof => {
                let tok = self.maybe_flush_scratchpad_as_text(0)?;
                Ok(ST(State::Eof, tok))
            },
            Endbyte::Limit => {
                let tok = self.maybe_flush_scratchpad_as_text(0)?;
                Ok(ST(State::Content(ContentState::Initial), tok))
            },
            Endbyte::Delimiter(b) => match self.lex_posttext_char(b)? {
                Some(st) => Ok(st),
                None => Err(LexError::NotWellFormed(XmlError::InvalidChar(ERRCTX_TEXT, b as u32, false))),
            },
        }
    }

    #[verifier::rlimit(40)]
    fn lex_cdata_section(&mut self, r: &mut &[u8]) -> (res: LexResult<ST>)
        requires
            old(self).wf(),
            old(self).err is None,
            old(self).state == State::Content(ContentState::CDataSection),
        ensures
            old(self).step_post(final(self), old(r)@, final(r)@, res),
            old(self).cdata_post(final(self), old(r)@, final(r)@, res),
    {
        let ghost r0 = r@;
        let ghost sp0 = self.scratchpad@;
        let limit = self.opts.max_token_length;
        let rv = self.read_validated(r, &ByteClass::CDataSection, limit);
        proof {
            if sp0.len() <= limit {
                lemma_read_validated_spec(&ByteClass::CDataSection, r0, (limit - sp0.len()) as nat);
            }
        }
        match rv? {
            Endbyte::Eof => Err(LexError::NotWellFormed(XmlError::InvalidEof(ERRCTX_CDATA_SECTION))),
            Endbyte::Limit => {
                let tok = self.maybe_flush_scratchpad_as_text(0)?;
                Ok(ST(State::Content(ContentState::CDataSection), tok))
            },
            Endbyte::Delimiter(b) => {
                if b == 0x5d {
                    Ok(ST(State::Content(ContentState::MaybeCDataEnd(true, 1)), None))
                } else if b == 0x0d {
                    Ok(ST(State::Content(ContentState::MaybeCRLF(true)), None))
                } else {
                    Err(LexError::NotWellFormed(XmlError::InvalidChar(ERRCTX_CDATA_SECTION, b as u32, false)))
                }
            },
        }
    }

    #[verifier::rlimit(40)]
    fn lex_whitespace(&mut self, r: &mut &[u8]) -> (res: LexResult<ST>)
        requires
            old(self).wf(),
            old(self).err is None,
            old(self).state == State::Content(ContentState::Whitespace),
        ensures
            old(self).step_post(final(self), old(r)@, final(r)@, res),
            old(self).whitespace_post(old(r)@, final(r)@, res),
    {
        let ghost r0 = r@;
        proof { lemma_skip_matching_spec(&ByteClass::Space, r0); }
        match self.skip_matching(r, &ByteClass::Space) {
            (_, Ok(Endbyte::Eof)) | (_, Ok(Endbyte::Limit)) => Ok(ST(State::Eof, None)),
            (_, Ok(Endbyte::Delimiter(b))) => {
                if b == 0x3c {
                    Ok(ST(State::Content(ContentState::MaybeElement(MaybeElementState::Initial)), None))
                } else {
                    Err(LexError::NotWellFormed(XmlError::UnexpectedByte(ERRCTX_XML_DECL_END, b, Some(&["Spaces", "<"]))))
                }
            },
            (_, Err(e)) => Err(e),
        }
    }

    fn lex_content(&mut self, state: ContentState, r: &mut &[u8]) -> (res: LexResult<ST>)
        requires
            old(self).wf(),
            old(self).err is None,
            old(self).state == State::Content(state),
        ensures
            old(self).step_post(final(self), old(r)@, final(r)@, res),
            state == ContentState::Initial ==> old(self).text_post(final(self), old(r)@, final(r)@, res),
            state matches ContentState::MaybeElement(st) ==> old(self).maybe_element_post(st, final(self), old(r)@, final(r)@, res),
            state matches ContentState::MaybeCDataEnd(c, n) ==> old(self).cdata_end_post(c, n, final(self), old(r)@, final(r)@, res),
            state matches ContentState::MaybeCRLF(c) ==> old(self).crlf_post(c, final(self), old(r)@, final(r)@, res),
            state == ContentState::CDataSection ==> old(self).cdata_post(final(self), old(r)@, final(r)@, res),
            state == ContentState::Whitespace ==> old(self).whitespace_post(old(r)@, final(r)@, res),
    {
        match state {
            ContentState::MaybeElement(substate) => self.lex_maybe_element(substate, r),
            ContentState::MaybeCDataEnd(in_cdata, nend) => self.lex_maybe_cdata_end(in_cdata, nend, r),
            ContentState::MaybeCRLF(in_cdata) => self.lex_maybe_crlf(in_cdata, r),
            ContentState::Initial => self.lex_text(r),
            ContentState::CDataSection => self.lex_cdata_section(r),
            ContentState::Whitespace => self.lex_whitespace(r),
        }
    }
}

/// The element state which the byte `b` leads to after a name, whitespace
/// or `=` inside an element header, footer or the XML declaration.
spec fn postblank_spec(kind: ElementKind, b: u8) -> std::result::Result<ElementState, XmlError> {
    if b == 0x20 || b == 0x09 || b == 0x0d || b == 0x0a {
        Ok(ElementState::Blank)
    } else if b == 0x22 {
        Ok(ElementState::AttributeValue(0x22, false))
    } else if b == 0x27 {
        Ok(ElementState::AttributeValue(0x27, false))
    } else if b == 0x3d {
        Ok(ElementState::Eq)
    } else if b == 0x3e {
        match kind {
            ElementKind::XMLDecl => Err(XmlError::UnexpectedChar(ERRCTX_XML_DECL, '>', Some(&["?"]))),
            _ => Ok(ElementState::Close),
        }
    } else if b == 0x3f {
        match kind {
            ElementKind::XMLDecl => Ok(ElementState::MaybeXMLDeclEnd),
            _ => Err(XmlError::UnexpectedChar(ERRCTX_ELEMENT, '?', None)),
        }
    } else if b == 0x2f {
        match kind {
            ElementKind::Header => Ok(ElementState::MaybeHeadClose),
            ElementKind::Footer => Err(XmlError::UnexpectedChar(ERRCTX_ELEMENT_FOOT, '/', None)),
            ElementKind::XMLDecl => Err(XmlError::UnexpectedChar(ERRCTX_XML_DECL, '/', None)),
        }
    } else if spec_is_namestart_byte(b) {
        Ok(ElementState::Name)
    } else {
        Err(XmlError::UnexpectedByte(
            match kind {
                ElementKind::XMLDecl => ERRCTX_XML_DECL,
                _ => ERRCTX_ELEMENT,
            },
            b,
            Some(&["whitespace", "\"", "'", "=", ">", "?", "/", "start of name"]),
        ))
    }
}

impl Lexer {
    fn lex_element_postblank(&mut self, kind: ElementKind, b: u8) -> (res: LexResult<ElementState>)
        requires old(self).base_wf(),
        ensures
            old(self).same_fixed(final(self)),
            final(self).ctr == old(self).ctr,
            final(self).last_token_end == old(self).last_token_end,
            match postblank_spec(kind, b) {
                Ok(st) => res == LexResult::<ElementState>::Ok(st),
                Err(e) => res == LexResult::<ElementState>::Err(LexError::NotWellFormed(e)),
            },
            res matches Ok(ElementState::Name) ==> final(self).scratchpad@ == old(self).scratchpad@.push(b),
            !(res matches Ok(ElementState::Name)) ==> final(self).scratchpad@ == old(self).scratchpad@,
    {
        if b == 0x20 || b == 0x09 || b == 0x0d || b == 0x0a {
            Ok(ElementState::Blank)
        } else if b == 0x22 {
            Ok(ElementState::AttributeValue(0x22, false))
        } else if b == 0x27 {
            Ok(ElementState::AttributeValue(0x27, false))
        } else if b == 0x3d {
            Ok(ElementState::Eq)
        } else if b == 0x3e {
            match kind {
                ElementKind::XMLDecl => Err(LexError::NotWellFormed(XmlError::UnexpectedChar(ERRCTX_XML_DECL, '>', Some(&["?"])))),
                _ => Ok(ElementState::Close),
            }
        } else if b == 0x3f {
            match kind {
                ElementKind::XMLDecl => Ok(ElementState::MaybeXMLDeclEnd),
                _ => Err(LexError::NotWellFormed(XmlError::UnexpectedChar(ERRCTX_ELEMENT, '?', None))),
            }
        } else if b == 0x2f {
            match kind {
                ElementKind::Header => Ok(ElementState::MaybeHeadClose),
                ElementKind::Footer => Err(LexError::NotWellFormed(XmlError::UnexpectedChar(ERRCTX_ELEMENT_FOOT, '/', None))),
                ElementKind::XMLDecl => Err(LexError::NotWellFormed(XmlError::UnexpectedChar(ERRCTX_XML_DECL, '/', None))),
            }
        } else if is_namestart_byte(b) {
            self.push_scratchpad(b);
            Ok(ElementState::Name)
        } else {
            Err(LexError::NotWellFormed(XmlError::UnexpectedByte(
                match kind {
                    ElementKind::XMLDecl => ERRCTX_XML_DECL,
                    _ => ERRCTX_ELEMENT,
                },
                b,
                Some(&["whitespace", "\"", "'", "=", ">", "?", "/", "start of name"]),
            )))
        }
    }

    fn lex_attval_next(&mut self, delim: u8, b: u8, element_kind: ElementKind) -> (res: LexResult<ST>)
        requires
            old(self).base_wf(),
            old(self).swap@.len() == 0,
            is_attval_delim(delim),
        ensures
            final(self).state == old(self).state,
            final(self).opts == old(self).opts,
            final(self).err == old(self).err,
            final(self).has_eof == old(self).has_eof,
            final(self).ctr == old(self).ctr,
            !(res matches Err(LexError::EndOfBuffer)),
            res matches Ok(st) ==> final(self).state_ok(st.0) && !(st.0 is Eof),
            attval_end_spec(old(self).scratchpad@, old(self).last_token_end, old(self).ctr, delim, b, element_kind,
                final(self), res),
    {
        if b == 0x3c {
            Err(LexError::NotWellFormed(XmlError::UnexpectedChar(ERRCTX_ATTVAL, '<', None)))
        } else if b == 0x26 {
            self.swap_scratchpad();
            Ok(ST(
                State::Reference {
                    ctx: ERRCTX_ATTVAL,
                    ret: RefReturnState::AttributeValue(element_kind, delim),
                    kind: RefKind::Entity,
                },
                None,
            ))
        } else if b == 0x09 || b == 0x0a {
            self.push_scratchpad(0x20);
            Ok(ST(State::Element { kind: element_kind, state: ElementState::AttributeValue(delim, false) }, None))
        } else if b == 0x0d {
            Ok(ST(State::Element { kind: element_kind, state: ElementState::AttributeValue(delim, true) }, None))
        } else if b == delim {
            let m = self.metrics(0);
            let v = self.flush_scratchpad_as_complete_cdata()?;
            Ok(ST(
                State::Element { kind: element_kind, state: ElementState::SpaceRequired },
                Some(Token::AttributeValue(m, v)),
            ))
        } else {
            Err(LexError::NotWellFormed(XmlError::InvalidChar(ERRCTX_ATTVAL, b as u32, false)))
        }
    }
}

impl Lexer {
    #[verifier::rlimit(60)]
    fn lex_element_name(&mut self, kind: ElementKind, state: ElementState, r: &mut &[u8]) -> (res: LexResult<ST>)
        requires
            old(self).wf(),
            old(self).err is None,
            state == ElementState::Start || state == ElementState::Name,
            old(self).state == (State::Element { kind: kind, state: state }),
        ensures
            old(self).step_post(final(self), old(r)@, final(r)@, res),
            old(self).scratchpad@.len() == 0 && old(r)@.len() > 0 && !spec_is_namestart_byte(old(r)@[0])
                ==> res == LexResult::<ST>::Err(LexError::NotWellFormed(XmlError::UnexpectedByte(ERRCTX_NAME, old(r)@[0], None))),
            old(self).scratchpad@.len() == 0 && old(r)@.len() > 0 && spec_is_namestart_byte(old(r)@[0])
                ==> res == LexResult::<ST>::Ok(ST(State::Element { kind: kind, state: state }, None))
                && final(self).scratchpad@ == seq![old(r)@[0]] && final(r)@ == old(r)@.subrange(1, old(r)@.len() as int),
            old(self).scratchpad@.len() == 0 && old(r)@.len() == 0 && old(self).has_eof
                ==> res == LexResult::<ST>::Err(LexError::NotWellFormed(XmlError::InvalidEof(ERRCTX_NAME))),
            old(self).scratchpad@.len() == 0 && old(r)@.len() == 0 && !old(self).has_eof
                ==> res == LexResult::<ST>::Err(LexError::EndOfBuffer),
            old(self).name_post(kind, state, final(self), old(r)@, final(r)@, res),
    {
        if self.scratchpad.len() == 0 {
            let b = handle_eof(self.read_single(r)?, ERRCTX_NAME)?;
            if !is_namestart_byte(b) {
                Err(LexError::NotWellFormed(XmlError::UnexpectedByte(ERRCTX_NAME, b, None)))
            } else {
                self.push_scratchpad(b);
                Ok(ST(State::Element { kind: kind, state: state }, None))
            }
        } else {
            let ghost r0 = r@;
            let ghost sp0 = self.scratchpad@;
            let limit = self.opts.max_token_length;
            let rv = self.read_validated(r, &ByteClass::Name, limit);
            proof {
                if sp0.len() <= limit {
                    lemma_read_validated_spec(&ByteClass::Name, r0, (limit - sp0.len()) as nat);
                }
            }
            match rv? {
                Endbyte::Eof => Err(LexError::NotWellFormed(XmlError::InvalidEof(ERRCTX_NAME))),
                Endbyte::Limit => Err(Lexer::token_length_error()),
                Endbyte::Delimiter(ch) => {
                    let next_state = self.lex_element_postblank(kind, ch)?;
                    let name = self.flush_scratchpad_as_name()?;
                    let metrics = self.metrics(1);
                    let tok = if state == ElementState::Name {
                        Token::Name(metrics, name)
                    } else {
                        match kind {
                            ElementKind::Footer => Token::ElementFootStart(metrics, name),
                            _ => Token::ElementHeadStart(metrics, name),
                        }
                    };
                    Ok(ST(State::Element { kind: kind, state: next_state }, Some(tok)))
                },
            }
        }
    }

    #[verifier::rlimit(60)]
    fn lex_element_blank(&mut self, kind: ElementKind, state: ElementState, r: &mut &[u8]) -> (res: LexResult<ST>)
        requires
            old(self).wf(),
            old(self).err is None,
            state == ElementState::SpaceRequired || state == ElementState::Blank,
            old(self).state == (State::Element { kind: kind, state: state }),
        ensures
            old(self).step_post(final(self), old(r)@, final(r)@, res),
            old(self).blank_post(kind, state, final(self), old(r)@, final(r)@, res),
    {
        let ghost r0 = r@;
        proof { lemma_skip_matching_spec(&ByteClass::Space, r0); }
        let (nmatching, ep) = self.skip_matching(r, &ByteClass::Space);
        match ep {
            Ok(Endbyte::Eof) | Ok(Endbyte::Limit) => Err(LexError::NotWellFormed(XmlError::InvalidEof(ERRCTX_ELEMENT))),
            Err(LexError::EndOfBuffer) => {
                if nmatching > 0 && state == ElementState::SpaceRequired {
                    Ok(ST(State::Element { kind: kind, state: ElementState::Blank }, None))
                } else {
                    Err(LexError::EndOfBuffer)
                }
            },
            Ok(Endbyte::Delimiter(b)) => {
                self.eat_whitespace_metrics(1);
                let next_state = self.lex_element_postblank(kind, b)?;
                if next_state == ElementState::Name && state == ElementState::SpaceRequired && nmatching == 0 {
                    Err(LexError::NotWellFormed(XmlError::InvalidSyntax("space required before attribute names")))
                } else {
                    Ok(ST(State::Element { kind: kind, state: next_state }, None))
                }
            },
            Err(e) => Err(e),
        }
    }

    #[verifier::rlimit(60)]
    fn lex_element_attval(&mut self, kind: ElementKind, delim: u8, cr: bool, r: &mut &[u8]) -> (res: LexResult<ST>)
        requires
            old(self).wf(),
            old(self).err is None,
            old(self).state == (State::Element { kind: kind, state: ElementState::AttributeValue(delim, cr) }),
        ensures
            old(self).step_post(final(self), old(r)@, final(r)@, res),
            old(self).attval_post(kind, delim, cr, final(self), old(r)@, final(r)@, res),
    {
        if !cr {
            let ghost r0 = r@;
            let ghost sp0 = self.scratchpad@;
            let limit = self.opts.max_token_length;
            let class = if delim == 0x22 { ByteClass::AttValQuot } else { ByteClass::AttValApos };
            let rv = self.read_validated(r, &class, limit);
            proof {
                if sp0.len() <= limit {
                    lemma_read_validated_spec(&class, r0, (limit - sp0.len()) as nat);
                }
            }
            match rv? {
                Endbyte::Eof => Err(LexError::NotWellFormed(XmlError::InvalidEof(ERRCTX_ATTVAL))),
                Endbyte::Limit => Err(Lexer::token_length_error()),
                Endbyte::Delimiter(c) => self.lex_attval_next(delim, c, kind),
            }
        } else {
            let b = handle_eof(self.read_single(r)?, ERRCTX_ATTVAL)?;
            if b == 0x0d {
                self.push_scratchpad(0x20);
                Ok(ST(State::Element { kind: kind, state: ElementState::AttributeValue(delim, true) }, None))
            } else {
                self.lex_attval_next(delim, b, kind)
            }
        }
    }

    #[verifier::rlimit(60)]
    fn lex_element_close(&mut self, kind: ElementKind, state: ElementState, r: &mut &[u8]) -> (res: LexResult<ST>)
        requires
            old(self).wf(),
            old(self).err is None,
            state == ElementState::MaybeXMLDeclEnd || state == ElementState::MaybeHeadClose,
            old(self).state == (State::Element { kind: kind, state: state }),
        ensures
            old(self).step_post(final(self), old(r)@, final(r)@, res),
            old(r)@.len() > 0 && old(r)@[0] == 0x3e && state == ElementState::MaybeXMLDeclEnd ==> (res matches Ok(ST(
                State::Content(ContentState::Whitespace), Some(Token::XMLDeclEnd(m))))
                && m.spec_start() == old(self).last_token_end && m.spec_end() == ctr_advance(old(self).ctr, 1)),
            old(r)@.len() > 0 && old(r)@[0] == 0x3e && state == ElementState::MaybeHeadClose ==> (res matches Ok(ST(
                State::Content(ContentState::Initial), Some(Token::ElementHeadClose(m))))
                && m.spec_start() == old(self).last_token_end && m.spec_end() == ctr_advance(old(self).ctr, 1)),
            old(r)@.len() > 0 && old(r)@[0] != 0x3e ==> (res matches Err(LexError::NotWellFormed(
                XmlError::UnexpectedByte(c, b, _))) && b == old(r)@[0]
                && c == (if state == ElementState::MaybeXMLDeclEnd { ERRCTX_XML_DECL_END } else { ERRCTX_ELEMENT_CLOSE })),
            old(r)@.len() == 0 && old(self).has_eof ==> res == LexResult::<ST>::Err(LexError::NotWellFormed(
                XmlError::InvalidEof(if state == ElementState::MaybeXMLDeclEnd { ERRCTX_XML_DECL_END } else { ERRCTX_ELEMENT_CLOSE }))),
            old(r)@.len() > 0 ==> final(r)@ == old(r)@.subrange(1, old(r)@.len() as int),
            old(r)@.len() == 0 && !old(self).has_eof ==> res == LexResult::<ST>::Err(LexError::EndOfBuffer),
    {
        let is_decl = state == ElementState::MaybeXMLDeclEnd;
        let ctx = if is_decl { ERRCTX_XML_DECL_END } else { ERRCTX_ELEMENT_CLOSE };
        match self.read_single(r)? {
            Some(b) => {
                if b == 0x3e {
                    self.drop_scratchpad();
                    let m = self.metrics(0);
                    if is_decl {
                        Ok(ST(State::Content(ContentState::Whitespace), Some(Token::XMLDeclEnd(m))))
                    } else {
                        Ok(ST(State::Content(ContentState::Initial), Some(Token::ElementHeadClose(m))))
                    }
                } else {
                    Err(LexError::NotWellFormed(XmlError::UnexpectedByte(ctx, b, Some(&[">"]))))
                }
            },
            None => Err(LexError::NotWellFormed(XmlError::InvalidEof(ctx))),
        }
    }

    fn lex_element(&mut self, kind: ElementKind, state: ElementState, r: &mut &[u8]) -> (res: LexResult<ST>)
        requires
            old(self).wf(),
            old(self).err is None,
            old(self).state == (State::Element { kind: kind, state: state }),
        ensures
            old(self).step_post(final(self), old(r)@, final(r)@, res),
            old(self).element_post(kind, state, final(self), old(r)@, final(r)@, res),
            (state == ElementState::SpaceRequired || state == ElementState::Blank) ==> old(self).blank_post(kind, state, final(self), old(r)@, final(r)@, res),
            state matches ElementState::AttributeValue(d, c) ==> old(self).attval_post(kind, d, c, final(self), old(r)@, final(r)@, res),
            (state == ElementState::Start || state == ElementState::Name) ==> old(self).name_post(kind, state, final(self), old(r)@, final(r)@, res),
    {
        match state {
            ElementState::Start | ElementState::Name => self.lex_element_name(kind, state, r),
            ElementState::SpaceRequired | ElementState::Blank => self.lex_element_blank(kind, state, r),
            ElementState::AttributeValue(delim, cr) => self.lex_element_attval(kind, delim, cr, r),
            ElementState::MaybeXMLDeclEnd | ElementState::MaybeHeadClose => self.lex_element_close(kind, state, r),
            ElementState::Eq => {
                let m = self.metrics(0);
                proof { old(self).lemma_frame_refl(r@); }
                Ok(ST(State::Element { kind: kind, state: ElementState::Blank }, Some(Token::Eq(m))))
            },
            ElementState::Close => {
                let m = self.metrics(0);
                proof { old(self).lemma_frame_refl(r@); }
                Ok(ST(State::Content(ContentState::Initial), Some(Token::ElementHFEnd(m))))
            },
        }
    }
}

impl Lexer {
    #[verifier::rlimit(80)]
    fn lex_reference(&mut self, ctx: &'static str, ret: RefReturnState, kind: RefKind, r: &mut &[u8]) -> (res: LexResult<ST>)
        requires
            old(self).wf(),
            old(self).err is None,
            old(self).state == (State::Reference { ctx: ctx, ret: ret, kind: kind }),
        ensures
            old(self).step_post(final(self), old(r)@, final(r)@, res),
            old(self).reference_post(ctx, ret, kind, final(self), old(r)@, final(r)@, res),
    {
        let ghost r0 = r@;
        let ghost sp0 = self.scratchpad@;
        let class = match kind {
            RefKind::Entity => ByteClass::Name,
            RefKind::Char(CharRefRadix::Decimal) => ByteClass::DecimalDigit,
            RefKind::Char(CharRefRadix::Hexadecimal) => ByteClass::HexadecimalDigit,
        };
        let rv = self.read_validated(r, &class, MAX_REFERENCE_LENGTH);
        proof {
            lemma_read_validated_spec(&class, r0, (MAX_REFERENCE_LENGTH - sp0.len()) as nat);
            let (taken, rest, why) = read_validated_spec(&class, r0, (MAX_REFERENCE_LENGTH - sp0.len()) as nat);
            if let RefKind::Char(radix) = kind {
                assert forall|i: int| 0 <= i < self.scratchpad@.len() implies is_radix_digit(radix, #[trigger] self.scratchpad@[i]) by {
                    if i >= sp0.len() {
                        assert(self.scratchpad@[i] == taken[i - sp0.len()]);
                    }
                }
            }
        }
        let b = match rv? {
            Endbyte::Eof => { return Err(LexError::NotWellFormed(XmlError::InvalidEof(ERRCTX_REF))); },
            Endbyte::Limit => { return Err(LexError::NotWellFormed(XmlError::UndeclaredEntity)); },
            Endbyte::Delimiter(b) => b,
        };
        let unexpected = LexError::NotWellFormed(XmlError::UnexpectedByte(ERRCTX_REF, b, Some(&[";"])));
        if b == 0x23 {
            if self.scratchpad.len() > 0 {
                return Err(unexpected);
            }
            match kind {
                RefKind::Entity => Ok(ST(
                    State::Reference { ctx: ctx, ret: ret, kind: RefKind::Char(CharRefRadix::Decimal) },
                    None,
                )),
                _ => Err(unexpected),
            }
        } else if b == 0x78 {
            if self.scratchpad.len() > 0 {
                return Err(unexpected);
            }
            match kind {
                RefKind::Char(CharRefRadix::Decimal) => Ok(ST(
                    State::Reference { ctx: ctx, ret: ret, kind: RefKind::Char(CharRefRadix::Hexadecimal) },
                    None,
                )),
                _ => Err(unexpected),
            }
        } else if b == 0x3b {
            if self.scratchpad.len() == 0 {
                return Err(LexError::NotWellFormed(XmlError::InvalidSyntax("empty reference")));
            }
            self.swap_scratchpad();
            let entity = self.read_swap();
            match kind {
                RefKind::Entity => {
                    let c = lex_add_context(resolve_named_entity(entity.as_slice()), ctx)?;
                    self.scratchpad.push(c);
                },
                RefKind::Char(radix) => {
                    lex_add_context(resolve_char_reference(entity.as_slice(), radix, &mut self.scratchpad), ctx)?;
                },
            }
            Ok(ST(ref_return_to_state(ret), None))
        } else {
            Err(unexpected)
        }
    }

    /// What one step of the lexer in its current state does with the bytes
    /// `old_r`: `new` is the lexer after the step (before it enters the
    /// next state which `res` names).
    #[verifier::opaque]
    spec fn step_exact(&self, new: &Lexer, old_r: Seq<u8>, new_r: Seq<u8>, res: LexResult<ST>) -> bool {
        &&& self.step_post(new, old_r, new_r, res)
        &&& match self.state {
            State::Content(ContentState::Initial) => self.text_post(new, old_r, new_r, res),
            State::Content(ContentState::MaybeElement(st)) => self.maybe_element_post(st, new, old_r, new_r, res),
            State::Content(ContentState::MaybeCDataEnd(c, n)) => self.cdata_end_post(c, n, new, old_r, new_r, res),
            State::Content(ContentState::MaybeCRLF(c)) => self.crlf_post(c, new, old_r, new_r, res),
            State::Content(ContentState::CDataSection) => self.cdata_post(new, old_r, new_r, res),
            State::Content(ContentState::Whitespace) => self.whitespace_post(old_r, new_r, res),
            State::Element { kind, state } => self.element_post(kind, state, new, old_r, new_r, res),
            State::Reference { ctx, ret, kind } => self.reference_post(ctx, ret, kind, new, old_r, new_r, res),
            State::Eof => true,
        }
    }

    /// This lexer with the state `st`.
    spec fn with_state(&self, st: State) -> Lexer {
        Lexer { state: st, ..*self }
    }

    /// This lexer with the error `e`.
    spec fn with_err(&self, e: LexError) -> Lexer {
        Lexer { err: Some(e), ..*self }
    }

    /// `ls` are the lexers, starting with this one, and `rs` the rest of
    /// the bytes `r` before each of a series of steps which emit no token:
    /// step `i` leaves `raws[i]`, which enters the state `sts[i]`.
    spec fn silent(&self, r: Seq<u8>, ls: Seq<Lexer>, rs: Seq<Seq<u8>>, raws: Seq<Lexer>, sts: Seq<State>) -> bool {
        &&& ls.len() >= 1
        &&& rs.len() == ls.len()
        &&& raws.len() + 1 == ls.len()
        &&& sts.len() + 1 == ls.len()
        &&& ls[0] == *self
        &&& rs[0] == r
        &&& forall|i: int| #![trigger ls[i]] 0 <= i < raws.len() ==> {
            &&& ls[i].err is None
            &&& !(ls[i].state is Eof)
            &&& ls[i].step_exact(&raws[i], rs[i], rs[i + 1], Ok(ST(sts[i], None)))
            &&& ls[i + 1] == raws[i].with_state(sts[i])
        }
    }

    /// What lexing from `r` does: steps which emit nothing, then either the
    /// end of the document, or a step which emits a token or fails.
    pub closed spec fn lexes(&self, r: Seq<u8>, new: Lexer, new_r: Seq<u8>, res: LexResult<Option<Token>>) -> bool {
        exists|ls: Seq<Lexer>, rs: Seq<Seq<u8>>, raws: Seq<Lexer>, sts: Seq<State>|
            #![trigger self.silent(r, ls, rs, raws, sts)]
            self.silent(r, ls, rs, raws, sts) && {
                let mid = ls.last();
                let mid_r = rs.last();
                ||| (mid.state is Eof && res == LexResult::<Option<Token>>::Ok(None) && new == mid && new_r == mid_r)
                ||| exists|raw: Lexer, step_res: LexResult<ST>| #![trigger mid.step_exact(&raw, mid_r, new_r, step_res)]
                    !(mid.state is Eof) && mid.step_exact(&raw, mid_r, new_r, step_res) && match step_res {
                        Ok(ST(st, Some(tok))) => res == LexResult::<Option<Token>>::Ok(Some(tok)) && new == raw.with_state(st),
                        Ok(ST(_, None)) => false,
                        Err(LexError::EndOfBuffer) => res == LexResult::<Option<Token>>::Err(LexError::EndOfBuffer) && new == raw,
                        Err(e) => res == LexResult::<Option<Token>>::Err(e) && new == raw.with_err(e),
                    }
            }
    }

    /// This lexer with the end-of-file flag `at_eof`.
    pub closed spec fn with_eof(&self, at_eof: bool) -> Lexer {
        Lexer { has_eof: at_eof, ..*self }
    }

    /// What [`Lexer::lex_bytes`] does with the bytes `r`, given the
    /// end-of-file flag: the steps of [`Lexer::lexes`], with running out of
    /// buffer reported as an I/O error of kind `WouldBlock`.
    pub closed spec fn lexes_bytes(&self, at_eof: bool, r: Seq<u8>, new: Lexer, new_r: Seq<u8>,
        res: CrateResult<Option<Token>>) -> bool {
        exists|raw_res: LexResult<Option<Token>>| #![trigger self.with_eof(at_eof).lexes(r, new, new_r, raw_res)]
            self.with_eof(at_eof).lexes(r, new, new_r, raw_res) && match raw_res {
                Ok(t) => res == CrateResult::<Option<Token>>::Ok(t),
                Err(LexError::EndOfBuffer) => res matches Err(Error::IO(w)) && w.would_block(),
                Err(e) => res == CrateResult::<Option<Token>>::Err(lex_error_to_crate(e)),
            }
    }

    /// In text with an empty scratchpad, `<` is consumed alone and leads to
    /// the start of markup.
    proof fn lemma_step_markup_open(&self, raw: Lexer, r: Seq<u8>, r2: Seq<u8>, res: LexResult<ST>)
        requires
            self.wf(),
            self.err is None,
            self.state == State::Content(ContentState::Initial),
            self.scratchpad@.len() == 0,
            r.len() > 0,
            r[0] == 0x3c,
            self.step_exact(&raw, r, r2, res),
        ensures
            res == LexResult::<ST>::Ok(ST(State::Content(ContentState::MaybeElement(MaybeElementState::Initial)), None)),
            r2 == r.subrange(1, r.len() as int),
            raw.scratchpad@.len() == 0,
            raw.opts == self.opts,
    {
        reveal(Lexer::step_exact);
        let limit = self.opts.max_token_length;
        assert(!ByteClass::Text.selects(0x3c));
        assert(leading_run(&ByteClass::Text, r) == 0);
        let scan = read_validated_spec(&ByteClass::Text, r, (limit - self.scratchpad@.len()) as nat);
        assert(scan.0 =~= Seq::<u8>::empty());
        assert(self.scratchpad@ + scan.0 =~= Seq::<u8>::empty());
    }

    /// At the start of markup, a byte which starts neither a name nor a
    /// declaration, section or end tag is rejected.
    proof fn lemma_step_bad_name_start(&self, raw: Lexer, r: Seq<u8>, r2: Seq<u8>, res: LexResult<ST>)
        requires
            self.state == State::Content(ContentState::MaybeElement(MaybeElementState::Initial)),
            r.len() > 0,
            !spec_is_namestart_byte(r[0]),
            r[0] != 0x3f,
            r[0] != 0x21,
            r[0] != 0x2f,
            self.step_exact(&raw, r, r2, res),
        ensures
            res == LexResult::<ST>::Err(LexError::NotWellFormed(XmlError::UnexpectedByte(ERRCTX_NAMESTART, r[0], None))),
    {
        reveal(Lexer::step_exact);
    }

    /// In text with an empty scratchpad, a delimiter byte `b` which is not
    /// markup is consumed alone: `]` and `\r` lead to their states.
    proof fn lemma_step_text_delimiter(&self, raw: Lexer, r: Seq<u8>, r2: Seq<u8>, res: LexResult<ST>)
        requires
            self.wf(),
            self.err is None,
            self.state == State::Content(ContentState::Initial),
            self.scratchpad@.len() == 0,
            r.len() > 0,
            r[0] == 0x5d || r[0] == 0x0d,
            self.step_exact(&raw, r, r2, res),
        ensures
            r[0] == 0x5d ==> res == LexResult::<ST>::Ok(ST(State::Content(ContentState::MaybeCDataEnd(false, 1)), None)),
            r[0] == 0x0d ==> res == LexResult::<ST>::Ok(ST(State::Content(ContentState::MaybeCRLF(false)), None)),
            raw.scratchpad@.len() == 0,
            raw.opts == self.opts,
            r2 == r.subrange(1, r.len() as int),
    {
        reveal(Lexer::step_exact);
        let limit = self.opts.max_token_length;
        assert(!ByteClass::Text.selects(r[0]));
        assert(leading_run(&ByteClass::Text, r) == 0);
        let scan = read_validated_spec(&ByteClass::Text, r, (limit - self.scratchpad@.len()) as nat);
        assert(scan.0 =~= Seq::<u8>::empty());
        assert(self.scratchpad@ + scan.0 =~= Seq::<u8>::empty());
    }

    /// After `]` in text, a second `]` and then `>` complete the forbidden
    /// sequence `]]>`; each byte is consumed alone.
    proof fn lemma_step_cdata_end_in_text(&self, n: usize, raw: Lexer, r: Seq<u8>, r2: Seq<u8>, res: LexResult<ST>)
        requires
            self.state == State::Content(ContentState::MaybeCDataEnd(false, n)),
            r.len() > 0,
            self.step_exact(&raw, r, r2, res),
        ensures
            n == 1 && r[0] == 0x5d ==> res == LexResult::<ST>::Ok(ST(State::Content(ContentState::MaybeCDataEnd(false, 2)), None)),
            n == 2 && r[0] == 0x3e ==> res == LexResult::<ST>::Err(
                LexError::NotWellFormed(XmlError::InvalidSyntax("unescaped ']]>' forbidden in text"))),
            r2 == r.subrange(1, r.len() as int),
    {
        reveal(Lexer::step_exact);
    }

    /// A fresh lexer given `]]>` rejects it: the sequence may not occur in
    /// text.
    pub proof fn law_cdata_end_is_forbidden_in_text(l: Lexer, rest: Seq<u8>, at_eof: bool,
        new: Lexer, new_r: Seq<u8>, res: CrateResult<Option<Token>>)
        requires
            l.wf(),
            l.is_fresh(),
            l.lexes_bytes(at_eof, seq![0x5du8, 0x5du8, 0x3eu8] + rest, new, new_r, res),
        ensures
            res == CrateResult::<Option<Token>>::Err(Error::NotWellFormed(XmlError::InvalidSyntax("unescaped ']]>' forbidden in text"))),
            new_r == rest,
    {
        let s = seq![0x5du8, 0x5du8, 0x3eu8] + rest;
        let l2 = l.with_eof(at_eof);
        assert(l2.wf());
        let raw_res = choose|raw_res: LexResult<Option<Token>>| #![trigger l2.lexes(s, new, new_r, raw_res)]
            l2.lexes(s, new, new_r, raw_res) && match raw_res {
                Ok(t) => res == CrateResult::<Option<Token>>::Ok(t),
                Err(LexError::EndOfBuffer) => res matches Err(Error::IO(w)) && w.would_block(),
                Err(e) => res == CrateResult::<Option<Token>>::Err(lex_error_to_crate(e)),
            };
        let (ls, rs, raws, sts) = choose|ls: Seq<Lexer>, rs: Seq<Seq<u8>>, raws: Seq<Lexer>, sts: Seq<State>|
            #![trigger l2.silent(s, ls, rs, raws, sts)]
            l2.silent(s, ls, rs, raws, sts) && {
                let mid = ls.last();
                let mid_r = rs.last();
                ||| (mid.state is Eof && raw_res == LexResult::<Option<Token>>::Ok(None) && new == mid && new_r == mid_r)
                ||| exists|raw: Lexer, step_res: LexResult<ST>| #![trigger mid.step_exact(&raw, mid_r, new_r, step_res)]
                    !(mid.state is Eof) && mid.step_exact(&raw, mid_r, new_r, step_res) && match step_res {
                        Ok(ST(st, Some(tok))) => raw_res == LexResult::<Option<Token>>::Ok(Some(tok)) && new == raw.with_state(st),
                        Ok(ST(_, None)) => false,
                        Err(LexError::EndOfBuffer) => raw_res == LexResult::<Option<Token>>::Err(LexError::EndOfBuffer) && new == raw,
                        Err(e) => raw_res == LexResult::<Option<Token>>::Err(e) && new == raw.with_err(e),
                    }
            };
        assert(s[0] == 0x5d && s[1] == 0x5d && s[2] == 0x3e);
        let mid = ls.last();
        let mid_r = rs.last();
        assert(ls[0] == l2 && rs[0] == s);
        if raws.len() >= 1 {
            l2.lemma_step_text_delimiter(raws[0], rs[0], rs[1], Ok(ST(sts[0], None)));
            assert(rs[1] =~= s.subrange(1, s.len() as int));
            assert(rs[1][0] == 0x5d);
        }
        if raws.len() >= 2 {
            ls[1].lemma_step_cdata_end_in_text(1, raws[1], rs[1], rs[2], Ok(ST(sts[1], None)));
            assert(rs[2] =~= s.subrange(2, s.len() as int));
            assert(rs[2][0] == 0x3e);
        }
        if raws.len() >= 3 {
            ls[2].lemma_step_cdata_end_in_text(2, raws[2], rs[2], rs[3], Ok(ST(sts[2], None)));
        }
        assert(!(mid.state is Eof));
        let (raw, step_res) = choose|raw: Lexer, step_res: LexResult<ST>| #![trigger mid.step_exact(&raw, mid_r, new_r, step_res)]
            !(mid.state is Eof) && mid.step_exact(&raw, mid_r, new_r, step_res) && match step_res {
                Ok(ST(st, Some(tok))) => raw_res == LexResult::<Option<Token>>::Ok(Some(tok)) && new == raw.with_state(st),
                Ok(ST(_, None)) => false,
                Err(LexError::EndOfBuffer) => raw_res == LexResult::<Option<Token>>::Err(LexError::EndOfBuffer) && new == raw,
                Err(e) => raw_res == LexResult::<Option<Token>>::Err(e) && new == raw.with_err(e),
            };
        if raws.len() == 0 {
            l2.lemma_step_text_delimiter(raw, s, new_r, step_res);
        } else if raws.len() == 1 {
            ls[1].lemma_step_cdata_end_in_text(1, raw, rs[1], new_r, step_res);
        } else {
            ls[2].lemma_step_cdata_end_in_text(2, raw, rs[2], new_r, step_res);
            assert(new_r =~= rest);
        }
    }

    /// The single line feed byte is valid UTF-8 for the line feed
    /// character, which XML text may hold.
    proof fn lemma_line_feed_decodes()
        ensures
            valid_utf8(seq![0x0au8]),
            decode_utf8(seq![0x0au8]) == seq!['\n'],
            is_valid_cdata(seq!['\n']),
    {
        let s = seq![0x0au8];
        assert(0x0au8 & 0x7fu8 == 0x0au8) by (bit_vector);
        assert(s.subrange(1, 1) =~= Seq::<u8>::empty());
        assert(pop_first_scalar(s) =~= Seq::<u8>::empty());
        assert(valid_first_scalar(s));
        assert(valid_utf8(Seq::<u8>::empty()));
        assert(valid_utf8(s)) by {
            reveal_with_fuel(valid_utf8, 2);
        }
        assert(decode_first_scalar(s) == 10u32);
        assert(decode_utf8(s) =~= seq![(10u32) as char] + decode_utf8(Seq::<u8>::empty()));
        assert(decode_utf8(s) =~= seq!['\n']);
        assert(is_xml_char('\n'));
    }

    /// In text, a line feed after a carriage return is consumed with it,
    /// and the pair is read as one line feed.
    proof fn lemma_step_crlf(&self, raw: Lexer, r: Seq<u8>, r2: Seq<u8>, res: LexResult<ST>)
        requires
            self.state == State::Content(ContentState::MaybeCRLF(false)),
            r.len() > 0,
            r[0] == 0x0a,
            self.step_exact(&raw, r, r2, res),
        ensures
            res == LexResult::<ST>::Ok(ST(State::Content(ContentState::Initial), None)),
            raw.scratchpad@ == self.scratchpad@.push(0x0a),
            raw.opts == self.opts,
            r2 == r.subrange(1, r.len() as int),
    {
        reveal(Lexer::step_exact);
    }

    /// In text holding a line feed, `<` ends the text: the line feed is
    /// emitted as a text token.
    proof fn lemma_step_line_feed_then_markup(&self, raw: Lexer, r: Seq<u8>, r2: Seq<u8>, res: LexResult<ST>)
        requires
            self.opts.max_token_length >= 1,
            self.state == State::Content(ContentState::Initial),
            self.scratchpad@ == seq![0x0au8],
            r.len() > 0,
            r[0] == 0x3c,
            self.step_exact(&raw, r, r2, res),
        ensures
            res matches Ok(ST(_, Some(Token::Text(_, c)))) && c@ == seq!['\n'],
            r2 == r.subrange(1, r.len() as int),
    {
        reveal(Lexer::step_exact);
        Self::lemma_line_feed_decodes();
        let limit = self.opts.max_token_length;
        assert(!ByteClass::Text.selects(0x3c));
        assert(leading_run(&ByteClass::Text, r) == 0);
        let scan = read_validated_spec(&ByteClass::Text, r, (limit - self.scratchpad@.len()) as nat);
        assert(scan.0 =~= Seq::<u8>::empty());
        assert(self.scratchpad@ + scan.0 =~= seq![0x0au8]);
    }

    /// A fresh lexer given `\r\n` and then `<` emits one text token which
    /// holds a single line feed: line ends are normalised in text.
    #[verifier::rlimit(60)]
    pub proof fn law_crlf_in_text_reads_as_line_feed(l: Lexer, rest: Seq<u8>, at_eof: bool,
        new: Lexer, new_r: Seq<u8>, res: CrateResult<Option<Token>>)
        requires
            l.wf(),
            l.is_fresh(),
            l.lexes_bytes(at_eof, seq![0x0du8, 0x0au8, 0x3cu8] + rest, new, new_r, res),
        ensures
            res matches Ok(Some(Token::Text(_, c))) && c@ == seq!['\n'],
            new_r == rest,
    {
        let s = seq![0x0du8, 0x0au8, 0x3cu8] + rest;
        let l2 = l.with_eof(at_eof);
        assert(l2.wf());
        let raw_res = choose|raw_res: LexResult<Option<Token>>| #![trigger l2.lexes(s, new, new_r, raw_res)]
            l2.lexes(s, new, new_r, raw_res) && match raw_res {
                Ok(t) => res == CrateResult::<Option<Token>>::Ok(t),
                Err(LexError::EndOfBuffer) => res matches Err(Error::IO(w)) && w.would_block(),
                Err(e) => res == CrateResult::<Option<Token>>::Err(lex_error_to_crate(e)),
            };
        let (ls, rs, raws, sts) = choose|ls: Seq<Lexer>, rs: Seq<Seq<u8>>, raws: Seq<Lexer>, sts: Seq<State>|
            #![trigger l2.silent(s, ls, rs, raws, sts)]
            l2.silent(s, ls, rs, raws, sts) && {
                let mid = ls.last();
                let mid_r = rs.last();
                ||| (mid.state is Eof && raw_res == LexResult::<Option<Token>>::Ok(None) && new == mid && new_r == mid_r)
                ||| exists|raw: Lexer, step_res: LexResult<ST>| #![trigger mid.step_exact(&raw, mid_r, new_r, step_res)]
                    !(mid.state is Eof) && mid.step_exact(&raw, mid_r, new_r, step_res) && match step_res {
                        Ok(ST(st, Some(tok))) => raw_res == LexResult::<Option<Token>>::Ok(Some(tok)) && new == raw.with_state(st),
                        Ok(ST(_, None)) => false,
                        Err(LexError::EndOfBuffer) => raw_res == LexResult::<Option<Token>>::Err(LexError::EndOfBuffer) && new == raw,
                        Err(e) => raw_res == LexResult::<Option<Token>>::Err(e) && new == raw.with_err(e),
                    }
            };
        assert(s[0] == 0x0d && s[1] == 0x0a && s[2] == 0x3c);
        let mid = ls.last();
        let mid_r = rs.last();
        assert(ls[0] == l2 && rs[0] == s);
        if raws.len() >= 1 {
            l2.lemma_step_text_delimiter(raws[0], rs[0], rs[1], Ok(ST(sts[0], None)));
            assert(rs[1] =~= s.subrange(1, s.len() as int));
            assert(rs[1][0] == 0x0a);
            assert(ls[1].scratchpad@.len() == 0);
        }
        if raws.len() >= 2 {
            ls[1].lemma_step_crlf(raws[1], rs[1], rs[2], Ok(ST(sts[1], None)));
            assert(rs[2] =~= s.subrange(2, s.len() as int));
            assert(rs[2][0] == 0x3c);
            assert(ls[2].scratchpad@ =~= seq![0x0au8]);
            assert(ls[2].opts == l2.opts);
        }
        if raws.len() >= 3 {
            ls[2].lemma_step_line_feed_then_markup(raws[2], rs[2], rs[3], Ok(ST(sts[2], None)));
        }
        assert(!(mid.state is Eof));
        let (raw, step_res) = choose|raw: Lexer, step_res: LexResult<ST>| #![trigger mid.step_exact(&raw, mid_r, new_r, step_res)]
            !(mid.state is Eof) && mid.step_exact(&raw, mid_r, new_r, step_res) && match step_res {
                Ok(ST(st, Some(tok))) => raw_res == LexResult::<Option<Token>>::Ok(Some(tok)) && new == raw.with_state(st),
                Ok(ST(_, None)) => false,
                Err(LexError::EndOfBuffer) => raw_res == LexResult::<Option<Token>>::Err(LexError::EndOfBuffer) && new == raw,
                Err(e) => raw_res == LexResult::<Option<Token>>::Err(e) && new == raw.with_err(e),
            };
        if raws.len() == 0 {
            l2.lemma_step_text_delimiter(raw, s, new_r, step_res);
        } else if raws.len() == 1 {
            ls[1].lemma_step_crlf(raw, rs[1], new_r, step_res);
        } else {
            ls[2].lemma_step_line_feed_then_markup(raw, rs[2], new_r, step_res);
            assert(new_r =~= rest);
        }
    }

    /// A fresh lexer given more text than its token length limit `n`
    /// emits the first `n` bytes as a text token and leaves the rest of
    /// the text to the next call: long text is split, not refused.
    pub proof fn law_long_text_is_split_at_token_limit(l: Lexer, r: Seq<u8>, at_eof: bool,
        new: Lexer, new_r: Seq<u8>, res: CrateResult<Option<Token>>)
        requires
            l.wf(),
            l.is_fresh(),
            r.len() > l.options().max_token_length,
            forall|i: int| 0 <= i <= l.options().max_token_length ==> !spec_is_text_delimiter(#[trigger] r[i]),
            valid_utf8(r.subrange(0, l.options().max_token_length as int)),
            is_valid_cdata(decode_utf8(r.subrange(0, l.options().max_token_length as int))),
            l.lexes_bytes(at_eof, r, new, new_r, res),
        ensures
            res matches Ok(Some(Token::Text(m, c))) && c@ == decode_utf8(r.subrange(0, l.options().max_token_length as int))
                && m.spec_start() == 0 && m.spec_end() == l.options().max_token_length,
            new_r == r.subrange(l.options().max_token_length as int, r.len() as int),
    {
        reveal(Lexer::step_exact);
        let n = l.opts.max_token_length;
        let l2 = l.with_eof(at_eof);
        assert(l2.wf());
        let raw_res = choose|raw_res: LexResult<Option<Token>>| #![trigger l2.lexes(r, new, new_r, raw_res)]
            l2.lexes(r, new, new_r, raw_res) && match raw_res {
                Ok(t) => res == CrateResult::<Option<Token>>::Ok(t),
                Err(LexError::EndOfBuffer) => res matches Err(Error::IO(w)) && w.would_block(),
                Err(e) => res == CrateResult::<Option<Token>>::Err(lex_error_to_crate(e)),
            };
        let (ls, rs, raws, sts) = choose|ls: Seq<Lexer>, rs: Seq<Seq<u8>>, raws: Seq<Lexer>, sts: Seq<State>|
            #![trigger l2.silent(r, ls, rs, raws, sts)]
            l2.silent(r, ls, rs, raws, sts) && {
                let mid = ls.last();
                let mid_r = rs.last();
                ||| (mid.state is Eof && raw_res == LexResult::<Option<Token>>::Ok(None) && new == mid && new_r == mid_r)
                ||| exists|raw: Lexer, step_res: LexResult<ST>| #![trigger mid.step_exact(&raw, mid_r, new_r, step_res)]
                    !(mid.state is Eof) && mid.step_exact(&raw, mid_r, new_r, step_res) && match step_res {
                        Ok(ST(st, Some(tok))) => raw_res == LexResult::<Option<Token>>::Ok(Some(tok)) && new == raw.with_state(st),
                        Ok(ST(_, None)) => false,
                        Err(LexError::EndOfBuffer) => raw_res == LexResult::<Option<Token>>::Err(LexError::EndOfBuffer) && new == raw,
                        Err(e) => raw_res == LexResult::<Option<Token>>::Err(e) && new == raw.with_err(e),
                    }
            };
        lemma_leading_run(&ByteClass::Text, r);
        let run = leading_run(&ByteClass::Text, r);
        if run <= n {
            assert(!spec_is_text_delimiter(r[run as int]));
            assert(false);
        }
        let scan = read_validated_spec(&ByteClass::Text, r, (n - l2.scratchpad@.len()) as nat);
        assert(l2.scratchpad@ + scan.0 =~= r.subrange(0, n as int));
        assert(ls[0] == l2 && rs[0] == r);
        let mid = ls.last();
        let mid_r = rs.last();
        if raws.len() >= 1 {
            assert(l2.step_exact(&raws[0], rs[0], rs[1], Ok(ST(sts[0], None))));
            assert(false);
        }
        assert(mid == l2 && mid_r == r);
        assert(!(mid.state is Eof));
        vstd::arithmetic::div_mod::lemma_small_mod(n as nat, (usize::MAX + 1) as nat);
        assert(ctr_advance(0, n as nat) == n);
    }

    /// At the start of markup, a byte which starts a name begins the name
    /// of an element header.
    proof fn lemma_step_name_start(&self, raw: Lexer, r: Seq<u8>, r2: Seq<u8>, res: LexResult<ST>)
        requires
            self.state == State::Content(ContentState::MaybeElement(MaybeElementState::Initial)),
            r.len() > 0,
            spec_is_namestart_byte(r[0]),
            self.step_exact(&raw, r, r2, res),
        ensures
            res == LexResult::<ST>::Ok(ST(State::Element { kind: ElementKind::Header, state: ElementState::Start }, None)),
            raw.scratchpad@ == self.scratchpad@.push(r[0]),
            raw.opts == self.opts,
            r2 == r.subrange(1, r.len() as int),
    {
        reveal(Lexer::step_exact);
    }

    /// A name which goes on past the token length limit is refused.
    proof fn lemma_step_long_name(&self, raw: Lexer, r: Seq<u8>, r2: Seq<u8>, res: LexResult<ST>)
        requires
            self.state == (State::Element { kind: ElementKind::Header, state: ElementState::Start }),
            self.scratchpad@.len() == 1,
            self.opts.max_token_length >= 1,
            r.len() >= self.opts.max_token_length,
            forall|i: int| 0 <= i < self.opts.max_token_length ==> !spec_is_name_delimiter(#[trigger] r[i]),
            self.step_exact(&raw, r, r2, res),
        ensures
            res == LexResult::<ST>::Err(LexError::RestrictedXml("long name or reference")),
    {
        reveal(Lexer::step_exact);
        let n = self.opts.max_token_length;
        lemma_leading_run(&ByteClass::Name, r);
        let run = leading_run(&ByteClass::Name, r);
        if run < n {
            assert(!spec_is_name_delimiter(r[run as int]));
            assert(false);
        }
        let scan = read_validated_spec(&ByteClass::Name, r, (n - 1) as nat);
        assert(scan.2 is Limit);
    }

    /// A fresh lexer given `<` and then an element name longer than its
    /// token length limit refuses the name: names, unlike text, are not
    /// split.
    pub proof fn law_long_name_is_refused(l: Lexer, r: Seq<u8>, at_eof: bool,
        new: Lexer, new_r: Seq<u8>, res: CrateResult<Option<Token>>)
        requires
            l.wf(),
            l.is_fresh(),
            r.len() > l.options().max_token_length,
            spec_is_namestart_byte(r[0]),
            forall|i: int| 1 <= i <= l.options().max_token_length ==> !spec_is_name_delimiter(#[trigger] r[i]),
            l.lexes_bytes(at_eof, seq![0x3cu8] + r, new, new_r, res),
        ensures
            res == CrateResult::<Option<Token>>::Err(Error::RestrictedXml("long name or reference")),
    {
        let s = seq![0x3cu8] + r;
        let l2 = l.with_eof(at_eof);
        assert(l2.wf());
        let raw_res = choose|raw_res: LexResult<Option<Token>>| #![trigger l2.lexes(s, new, new_r, raw_res)]
            l2.lexes(s, new, new_r, raw_res) && match raw_res {
                Ok(t) => res == CrateResult::<Option<Token>>::Ok(t),
                Err(LexError::EndOfBuffer) => res matches Err(Error::IO(w)) && w.would_block(),
                Err(e) => res == CrateResult::<Option<Token>>::Err(lex_error_to_crate(e)),
            };
        let (ls, rs, raws, sts) = choose|ls: Seq<Lexer>, rs: Seq<Seq<u8>>, raws: Seq<Lexer>, sts: Seq<State>|
            #![trigger l2.silent(s, ls, rs, raws, sts)]
            l2.silent(s, ls, rs, raws, sts) && {
                let mid = ls.last();
                let mid_r = rs.last();
                ||| (mid.state is Eof && raw_res == LexResult::<Option<Token>>::Ok(None) && new == mid && new_r == mid_r)
                ||| exists|raw: Lexer, step_res: LexResult<ST>| #![trigger mid.step_exact(&raw, mid_r, new_r, step_res)]
                    !(mid.state is Eof) && mid.step_exact(&raw, mid_r, new_r, step_res) && match step_res {
                        Ok(ST(st, Some(tok))) => raw_res == LexResult::<Option<Token>>::Ok(Some(tok)) && new == raw.with_state(st),
                        Ok(ST(_, None)) => false,
                        Err(LexError::EndOfBuffer) => raw_res == LexResult::<Option<Token>>::Err(LexError::EndOfBuffer) && new == raw,
                        Err(e) => raw_res == LexResult::<Option<Token>>::Err(e) && new == raw.with_err(e),
                    }
            };
        let n = l2.opts.max_token_length;
        assert(s[0] == 0x3c);
        let mid = ls.last();
        let mid_r = rs.last();
        assert(ls[0] == l2 && rs[0] == s);
        if raws.len() >= 1 {
            l2.lemma_step_markup_open(raws[0], rs[0], rs[1], Ok(ST(sts[0], None)));
            assert(rs[1] =~= r);
        }
        if raws.len() >= 2 {
            ls[1].lemma_step_name_start(raws[1], rs[1], rs[2], Ok(ST(sts[1], None)));
            assert(rs[2] =~= r.subrange(1, r.len() as int));
            assert(ls[2].scratchpad@.len() == 1);
            assert(ls[2].opts == l2.opts);
            assert forall|i: int| 0 <= i < n implies !spec_is_name_delimiter(#[trigger] rs[2][i]) by {
                assert(rs[2][i] == r[i + 1]);
            }
        }
        if raws.len() >= 3 {
            ls[2].lemma_step_long_name(raws[2], rs[2], rs[3], Ok(ST(sts[2], None)));
        }
        assert(!(mid.state is Eof));
        let (raw, step_res) = choose|raw: Lexer, step_res: LexResult<ST>| #![trigger mid.step_exact(&raw, mid_r, new_r, step_res)]
            !(mid.state is Eof) && mid.step_exact(&raw, mid_r, new_r, step_res) && match step_res {
                Ok(ST(st, Some(tok))) => raw_res == LexResult::<Option<Token>>::Ok(Some(tok)) && new == raw.with_state(st),
                Ok(ST(_, None)) => false,
                Err(LexError::EndOfBuffer) => raw_res == LexResult::<Option<Token>>::Err(LexError::EndOfBuffer) && new == raw,
                Err(e) => raw_res == LexResult::<Option<Token>>::Err(e) && new == raw.with_err(e),
            };
        if raws.len() == 0 {
            l2.lemma_step_markup_open(raw, s, new_r, step_res);
        } else if raws.len() == 1 {
            ls[1].lemma_step_name_start(raw, rs[1], new_r, step_res);
        } else {
            ls[2].lemma_step_long_name(raw, rs[2], new_r, step_res);
        }
    }

    proof fn lemma_extend_facts(c: Seq<u8>, r2: Seq<u8>, d: Seq<u8>)
        requires r2.len() <= c.len(), r2 == c.subrange(c.len() - r2.len(), c.len() as int),
        ensures
            r2 + d == (c + d).subrange((c + d).len() - (r2 + d).len(), (c + d).len() as int),
            c.len() > 0 ==> (c + d)[0] == c[0]
                && (c + d).subrange(1, (c + d).len() as int) == c.subrange(1, c.len() as int) + d,
    {
        assert((c + d).subrange((c + d).len() - (r2 + d).len(), (c + d).len() as int) =~= r2 + d);
        if c.len() > 0 {
            assert((c + d).subrange(1, (c + d).len() as int) =~= c.subrange(1, c.len() as int) + d);
        }
    }

    proof fn lemma_step_post_extend(&self, raw: Lexer, c: Seq<u8>, r2: Seq<u8>, res: LexResult<ST>, d: Seq<u8>, t: bool)
        requires
            self.step_post(&raw, c, r2, res),
            !(res matches Err(LexError::EndOfBuffer)),
        ensures
            self.with_eof(t).step_post(&raw.with_eof(t), c + d, r2 + d, res),
            r2 + d == (c + d).subrange((c + d).len() - (r2 + d).len(), (c + d).len() as int),
            c.len() > 0 ==> (c + d)[0] == c[0]
                && (c + d).subrange(1, (c + d).len() as int) == c.subrange(1, c.len() as int) + d,
    {
        Self::lemma_extend_facts(c, r2, d);
    }

    proof fn lemma_text_extend(&self, raw: Lexer, c: Seq<u8>, r2: Seq<u8>, res: LexResult<ST>, d: Seq<u8>, t: bool)
        requires
            !self.has_eof,
            self.text_post(&raw, c, r2, res),
            !(res matches Err(LexError::EndOfBuffer)),
        ensures
            self.with_eof(t).text_post(&raw.with_eof(t), c + d, r2 + d, res),
    {
        let limit = self.opts.max_token_length;
        let sp = self.scratchpad@;
        if sp.len() <= limit {
            lemma_read_validated_extend(&ByteClass::Text, c, d, (limit - sp.len()) as nat);
        }
    }

    proof fn lemma_cdata_extend(&self, raw: Lexer, c: Seq<u8>, r2: Seq<u8>, res: LexResult<ST>, d: Seq<u8>, t: bool)
        requires
            !self.has_eof,
            self.cdata_post(&raw, c, r2, res),
            !(res matches Err(LexError::EndOfBuffer)),
        ensures
            self.with_eof(t).cdata_post(&raw.with_eof(t), c + d, r2 + d, res),
    {
        let limit = self.opts.max_token_length;
        let sp = self.scratchpad@;
        if sp.len() <= limit {
            lemma_read_validated_extend(&ByteClass::CDataSection, c, d, (limit - sp.len()) as nat);
        }
    }

    proof fn lemma_whitespace_extend(&self, c: Seq<u8>, r2: Seq<u8>, res: LexResult<ST>, d: Seq<u8>, t: bool)
        requires
            !self.has_eof,
            self.whitespace_post(c, r2, res),
            !(res matches Err(LexError::EndOfBuffer)),
        ensures
            self.with_eof(t).whitespace_post(c + d, r2 + d, res),
    {
        lemma_skip_matching_extend(&ByteClass::Space, c, d);
    }

    proof fn lemma_reference_extend(&self, ctx: &'static str, ret: RefReturnState, kind: RefKind, raw: Lexer, c: Seq<u8>,
        r2: Seq<u8>, res: LexResult<ST>, d: Seq<u8>, t: bool)
        requires
            !self.has_eof,
            self.reference_post(ctx, ret, kind, &raw, c, r2, res),
            !(res matches Err(LexError::EndOfBuffer)),
        ensures
            self.with_eof(t).reference_post(ctx, ret, kind, &raw.with_eof(t), c + d, r2 + d, res),
    {
        let room = (MAX_REFERENCE_LENGTH - self.scratchpad@.len()) as nat;
        if !(ref_scan(kind, self.scratchpad@.len(), c).2 is Eof) {
            match kind {
                RefKind::Entity => lemma_read_validated_extend(&ByteClass::Name, c, d, room),
                RefKind::Char(CharRefRadix::Decimal) => lemma_read_validated_extend(&ByteClass::DecimalDigit, c, d, room),
                RefKind::Char(CharRefRadix::Hexadecimal) => lemma_read_validated_extend(&ByteClass::HexadecimalDigit, c, d, room),
            }
        }
    }

    proof fn lemma_element_extend(&self, kind: ElementKind, state: ElementState, raw: Lexer, c: Seq<u8>, r2: Seq<u8>,
        res: LexResult<ST>, d: Seq<u8>, t: bool)
        requires
            !self.has_eof,
            self.element_post(kind, state, &raw, c, r2, res),
            self.step_post(&raw, c, r2, res),
            !(res matches Err(LexError::EndOfBuffer)),
            !((state == ElementState::SpaceRequired || state == ElementState::Blank)
                && skip_matching_spec(&ByteClass::Space, c).2 is Eof),
        ensures
            self.with_eof(t).element_post(kind, state, &raw.with_eof(t), c + d, r2 + d, res),
    {
        let limit = self.opts.max_token_length;
        let sp = self.scratchpad@;
        self.lemma_step_post_extend(raw, c, r2, res, d, t);
        match state {
            ElementState::Start | ElementState::Name => {
                if sp.len() > 0 && sp.len() <= limit {
                    lemma_read_validated_extend(&ByteClass::Name, c, d, (limit - sp.len()) as nat);
                }
            },
            ElementState::AttributeValue(dl, cr) => {
                if !cr && sp.len() <= limit {
                    lemma_read_validated_extend(&attval_class(dl), c, d, (limit - sp.len()) as nat);
                }
            },
            ElementState::SpaceRequired | ElementState::Blank => {
                lemma_skip_matching_extend(&ByteClass::Space, c, d);
            },
            _ => {},
        }
    }

    /// A step which does not run out of bytes does the same when more
    /// bytes follow, whether or not the end of the document is known.
    proof fn lemma_step_extend(&self, raw: Lexer, c: Seq<u8>, r2: Seq<u8>, res: LexResult<ST>, d: Seq<u8>, t: bool)
        requires
            !self.has_eof,
            self.step_exact(&raw, c, r2, res),
            !(res matches Err(LexError::EndOfBuffer)),
            !(skips_blanks(self.state) && skip_matching_spec(&ByteClass::Space, c).2 is Eof),
        ensures
            self.with_eof(t).step_exact(&raw.with_eof(t), c + d, r2 + d, res),
    {
        reveal(Lexer::step_exact);
        self.lemma_step_post_extend(raw, c, r2, res, d, t);
        match self.state {
            State::Content(ContentState::Initial) => self.lemma_text_extend(raw, c, r2, res, d, t),
            State::Content(ContentState::CDataSection) => self.lemma_cdata_extend(raw, c, r2, res, d, t),
            State::Content(ContentState::Whitespace) => self.lemma_whitespace_extend(c, r2, res, d, t),
            State::Element { kind, state } => self.lemma_element_extend(kind, state, raw, c, r2, res, d, t),
            State::Reference { ctx, ret, kind } => self.lemma_reference_extend(ctx, ret, kind, raw, c, r2, res, d, t),
            _ => {},
        }
    }

    /// What a step which ran out of bytes left: the lexer in the same
    /// state, with the bytes kept where the state keeps them.
    spec fn waits_with(&self, raw: Lexer, c: Seq<u8>) -> bool {
        &&& raw.state == self.state
        &&& raw.opts == self.opts
        &&& raw.err == self.err
        &&& raw.has_eof == self.has_eof
        &&& raw.last_token_end == self.last_token_end
        &&& raw.swap@ == self.swap@
        &&& raw.ctr == ctr_advance(self.ctr, c.len())
        &&& raw.scratchpad@ == (if skips_blanks(self.state) { self.scratchpad@ } else { self.scratchpad@ + c })
        &&& (c.len() > 0 ==> self.scans_runs())
    }

    proof fn lemma_eob_waits(&self, raw: Lexer, c: Seq<u8>, r2: Seq<u8>)
        requires self.step_post(&raw, c, r2, Err(LexError::EndOfBuffer)),
        ensures self.waits_with(raw, c), r2.len() == 0,
    {
    }

    proof fn lemma_step_post_resume(&self, raw: Lexer, c: Seq<u8>, t: bool, raw2: Lexer, d: Seq<u8>, d2: Seq<u8>,
        res2: LexResult<ST>)
        requires
            self.waits_with(raw, c),
            raw.with_eof(t).step_post(&raw2, d, d2, res2),
        ensures
            self.with_eof(t).step_post(&raw2, c + d, d2, res2),
    {
        lemma_ctr_advance_add(self.ctr, c.len(), (d.len() - d2.len()) as nat);
        assert((c + d).subrange((c + d).len() - d2.len(), (c + d).len() as int) =~= d.subrange(d.len() - d2.len(), d.len() as int));
        if res2 matches Err(LexError::EndOfBuffer) {
            if !skips_blanks(self.state) {
                assert(self.scratchpad@ + (c + d) =~= self.scratchpad@ + c + d);
            }
            if c.len() == 0 {
                assert(raw.scratchpad@ =~= self.scratchpad@);
            }
        }
    }

    proof fn lemma_text_resume(&self, raw: Lexer, c: Seq<u8>, t: bool, raw2: Lexer, d: Seq<u8>, d2: Seq<u8>, res2: LexResult<ST>)
        requires
            self.waits_with(raw, c),
            !skips_blanks(self.state),
            self.text_post(&raw, c, Seq::empty(), Err(LexError::EndOfBuffer)),
            !self.has_eof,
            raw.with_eof(t).text_post(&raw2, d, d2, res2),
        ensures
            self.with_eof(t).text_post(&raw2, c + d, d2, res2),
    {
        let limit = self.opts.max_token_length;
        let sp = self.scratchpad@;
        if sp.len() <= limit {
            let sc = read_validated_spec(&ByteClass::Text, c, (limit - sp.len()) as nat);
            if sc.2 is Eof {
                lemma_read_validated_resume(&ByteClass::Text, c, d, (limit - sp.len()) as nat);
                let sd = read_validated_spec(&ByteClass::Text, d, (limit - sp.len() - c.len()) as nat);
                assert(sp + (c + sd.0) =~= (sp + c) + sd.0);
                assert(((limit - sp.len()) as nat - c.len()) as nat == (limit - (sp + c).len()) as nat);
            }
        }
    }

    proof fn lemma_cdata_resume(&self, raw: Lexer, c: Seq<u8>, t: bool, raw2: Lexer, d: Seq<u8>, d2: Seq<u8>, res2: LexResult<ST>)
        requires
            self.waits_with(raw, c),
            !skips_blanks(self.state),
            self.cdata_post(&raw, c, Seq::empty(), Err(LexError::EndOfBuffer)),
            !self.has_eof,
            raw.with_eof(t).cdata_post(&raw2, d, d2, res2),
        ensures
            self.with_eof(t).cdata_post(&raw2, c + d, d2, res2),
    {
        let limit = self.opts.max_token_length;
        let sp = self.scratchpad@;
        if sp.len() <= limit {
            let sc = read_validated_spec(&ByteClass::CDataSection, c, (limit - sp.len()) as nat);
            if sc.2 is Eof {
                lemma_read_validated_resume(&ByteClass::CDataSection, c, d, (limit - sp.len()) as nat);
                let sd = read_validated_spec(&ByteClass::CDataSection, d, (limit - sp.len() - c.len()) as nat);
                assert(sp + (c + sd.0) =~= (sp + c) + sd.0);
                assert(((limit - sp.len()) as nat - c.len()) as nat == (limit - (sp + c).len()) as nat);
            }
        }
    }

    proof fn lemma_whitespace_resume(&self, c: Seq<u8>, t: bool, d: Seq<u8>, d2: Seq<u8>, res2: LexResult<ST>)
        requires
            self.whitespace_post(c, Seq::empty(), Err(LexError::EndOfBuffer)),
            self.whitespace_post(d, d2, res2) || self.with_eof(t).whitespace_post(d, d2, res2),
            self.with_eof(t).whitespace_post(d, d2, res2),
        ensures
            self.with_eof(t).whitespace_post(c + d, d2, res2),
    {
        lemma_skip_matching_resume(&ByteClass::Space, c, d);
    }

    proof fn lemma_reference_resume(&self, ctx: &'static str, ret: RefReturnState, kind: RefKind, raw: Lexer, c: Seq<u8>,
        t: bool, raw2: Lexer, d: Seq<u8>, d2: Seq<u8>, res2: LexResult<ST>)
        requires
            self.waits_with(raw, c),
            self.state == (State::Reference { ctx: ctx, ret: ret, kind: kind }),
            !self.has_eof,
            self.scratchpad@.len() <= MAX_REFERENCE_LENGTH,
            self.reference_post(ctx, ret, kind, &raw, c, Seq::empty(), Err(LexError::EndOfBuffer)),
            raw.with_eof(t).reference_post(ctx, ret, kind, &raw2, d, d2, res2),
        ensures
            self.with_eof(t).reference_post(ctx, ret, kind, &raw2, c + d, d2, res2),
    {
        let sp = self.scratchpad@;
        let room = (MAX_REFERENCE_LENGTH - sp.len()) as nat;
        let sc = ref_scan(kind, sp.len(), c);
        if sc.2 is Eof {
            match kind {
                RefKind::Entity => lemma_read_validated_resume(&ByteClass::Name, c, d, room),
                RefKind::Char(CharRefRadix::Decimal) => lemma_read_validated_resume(&ByteClass::DecimalDigit, c, d, room),
                RefKind::Char(CharRefRadix::Hexadecimal) => lemma_read_validated_resume(&ByteClass::HexadecimalDigit, c, d, room),
            }
            let sd = ref_scan(kind, (sp + c).len(), d);
            assert((room - c.len()) as nat == (MAX_REFERENCE_LENGTH - (sp + c).len()) as nat);
            assert(sp + (c + sd.0) =~= (sp + c) + sd.0);
        }
    }

    proof fn lemma_element_resume(&self, kind: ElementKind, state: ElementState, raw: Lexer, c: Seq<u8>, t: bool,
        raw2: Lexer, d: Seq<u8>, d2: Seq<u8>, res2: LexResult<ST>)
        requires
            self.waits_with(raw, c),
            c.len() > 0,
            self.state == (State::Element { kind: kind, state: state }),
            !self.has_eof,
            self.element_post(kind, state, &raw, c, Seq::empty(), Err(LexError::EndOfBuffer)),
            raw.with_eof(t).element_post(kind, state, &raw2, d, d2, res2),
        ensures
            self.with_eof(t).element_post(kind, state, &raw2, c + d, d2, res2),
    {
        let limit = self.opts.max_token_length;
        let sp = self.scratchpad@;
        match state {
            ElementState::Start | ElementState::Name => {
                if sp.len() <= limit {
                    let sc = read_validated_spec(&ByteClass::Name, c, (limit - sp.len()) as nat);
                    if sc.2 is Eof {
                        lemma_read_validated_resume(&ByteClass::Name, c, d, (limit - sp.len()) as nat);
                        let sd = read_validated_spec(&ByteClass::Name, d, (limit - sp.len() - c.len()) as nat);
                        assert(sp + (c + sd.0) =~= (sp + c) + sd.0);
                        assert(((limit - sp.len()) as nat - c.len()) as nat == (limit - (sp + c).len()) as nat);
                    }
                }
            },
            ElementState::AttributeValue(dl, cr) => {
                if sp.len() <= limit {
                    let sc = read_validated_spec(&attval_class(dl), c, (limit - sp.len()) as nat);
                    if sc.2 is Eof {
                        lemma_read_validated_resume(&attval_class(dl), c, d, (limit - sp.len()) as nat);
                        let sd = read_validated_spec(&attval_class(dl), d, (limit - sp.len() - c.len()) as nat);
                        assert(sp + (c + sd.0) =~= (sp + c) + sd.0);
                        assert(((limit - sp.len()) as nat - c.len()) as nat == (limit - (sp + c).len()) as nat);
                        lemma_ctr_advance_add(self.ctr, c.len(), (d.len() - sd.1.len()) as nat);
                    }
                }
            },
            ElementState::SpaceRequired | ElementState::Blank => {
                lemma_skip_matching_resume(&ByteClass::Space, c, d);
            },
            _ => {},
        }
    }

    /// A step which ran out of the bytes `c`, resumed on the bytes `d` which
    /// follow, does what one step on `c` and `d` together does, whether or
    /// not the end of the document is known by then.
    proof fn lemma_step_resume(&self, raw: Lexer, c: Seq<u8>, t: bool, raw2: Lexer, d: Seq<u8>, d2: Seq<u8>,
        res2: LexResult<ST>)
        requires
            !self.has_eof,
            self.wf(),
            self.err is None,
            self.step_exact(&raw, c, Seq::empty(), Err(LexError::EndOfBuffer)),
            raw.with_eof(t).step_exact(&raw2, d, d2, res2),
        ensures
            self.with_eof(t).step_exact(&raw2, c + d, d2, res2),
    {
        reveal(Lexer::step_exact);
        self.lemma_eob_waits(raw, c, Seq::empty());
        if c.len() == 0 {
            assert(c + d =~= d);
            assert(raw.scratchpad@ =~= self.scratchpad@);
            lemma_ctr_advance_zero(self.ctr);
            assert(raw.with_eof(t).same_content(&self.with_eof(t)));
            raw.with_eof(t).lemma_step_exact_same_content(self.with_eof(t), raw2, d, d2, res2);
        } else {
            self.lemma_step_post_resume(raw, c, t, raw2, d, d2, res2);
            match self.state {
                State::Content(ContentState::Initial) => self.lemma_text_resume(raw, c, t, raw2, d, d2, res2),
                State::Content(ContentState::CDataSection) => self.lemma_cdata_resume(raw, c, t, raw2, d, d2, res2),
                State::Content(ContentState::Whitespace) => self.lemma_whitespace_resume(c, t, d, d2, res2),
                State::Element { kind, state } => self.lemma_element_resume(kind, state, raw, c, t, raw2, d, d2, res2),
                State::Reference { ctx, ret, kind } => self.lemma_reference_resume(ctx, ret, kind, raw, c, t, raw2, d, d2, res2),
                _ => {},
            }
        }
    }

    proof fn lemma_step_frame(&self, raw: Lexer, r: Seq<u8>, r2: Seq<u8>, res: LexResult<ST>)
        requires self.step_exact(&raw, r, r2, res),
        ensures self.frame(&raw, r, r2), self.step_post(&raw, r, r2, res),
    {
        reveal(Lexer::step_exact);
    }

    proof fn lemma_silent_eof_at(&self, r: Seq<u8>, ls: Seq<Lexer>, rs: Seq<Seq<u8>>, raws: Seq<Lexer>, sts: Seq<State>, i: int)
        requires self.silent(r, ls, rs, raws, sts), 0 <= i < ls.len(),
        ensures
            ls[i].has_eof == self.has_eof,
            ls[i].opts == self.opts,
            rs[i].len() <= r.len(),
            rs[i] == r.subrange(r.len() - rs[i].len(), r.len() as int),
            ls[i].err == self.err,
            self.wf() ==> ls[i].wf(),
        decreases i,
    {
        if i > 0 {
            self.lemma_silent_eof_at(r, ls, rs, raws, sts, i - 1);
            assert(ls[i - 1].step_exact(&raws[i - 1], rs[i - 1], rs[i], Ok(ST(sts[i - 1], None))));
            ls[i - 1].lemma_step_frame(raws[i - 1], rs[i - 1], rs[i], Ok(ST(sts[i - 1], None)));
            assert(rs[i] =~= r.subrange(r.len() - rs[i].len(), r.len() as int));
        }
    }

    /// A step in blanks with nothing to read and the end not known waits
    /// for more bytes.
    proof fn lemma_blank_empty_waits(&self, raw: Lexer, r2: Seq<u8>, res: LexResult<ST>)
        requires
            skips_blanks(self.state),
            !self.has_eof,
            self.step_exact(&raw, Seq::empty(), r2, res),
        ensures
            self.state matches State::Element { state: ElementState::SpaceRequired, .. } || res == LexResult::<ST>::Err(LexError::EndOfBuffer),
    {
        reveal(Lexer::step_exact);
        lemma_skip_matching_spec(&ByteClass::Space, Seq::<u8>::empty());
    }

    /// A step in blanks which skips all the bytes there are, with the end
    /// not known, passes to blanks after a space, or waits.
    proof fn lemma_blank_all_spaces(&self, raw: Lexer, c: Seq<u8>, r2: Seq<u8>, res: LexResult<ST>)
        requires
            skips_blanks(self.state),
            !self.has_eof,
            skip_matching_spec(&ByteClass::Space, c).2 is Eof,
            self.step_exact(&raw, c, r2, res),
        ensures
            r2.len() == 0,
            res == LexResult::<ST>::Err(LexError::EndOfBuffer) || (self.state matches State::Element { kind, state: ElementState::SpaceRequired }
                && res == LexResult::<ST>::Ok(ST(State::Element { kind: kind, state: ElementState::Blank }, None))
                && raw.scratchpad@ == self.scratchpad@ && raw.swap@ == self.swap@
                && raw.last_token_end == self.last_token_end),
    {
        reveal(Lexer::step_exact);
    }

    /// The steps which emit nothing do the same when more bytes follow,
    /// where none of them skips blanks up to the end of the bytes.
    proof fn lemma_silent_extend(&self, r: Seq<u8>, ls: Seq<Lexer>, rs: Seq<Seq<u8>>, raws: Seq<Lexer>, sts: Seq<State>,
        d: Seq<u8>, t: bool)
        requires
            !self.has_eof,
            self.silent(r, ls, rs, raws, sts),
            forall|i: int| #![trigger rs[i]] 0 <= i < raws.len() ==>
                !(skips_blanks(ls[i].state) && skip_matching_spec(&ByteClass::Space, rs[i]).2 is Eof),
        ensures
            self.with_eof(t).silent(r + d, Seq::new(ls.len(), |i: int| ls[i].with_eof(t)),
                Seq::new(rs.len(), |i: int| rs[i] + d), Seq::new(raws.len(), |i: int| raws[i].with_eof(t)), sts),
    {
        let ls2 = Seq::new(ls.len(), |i: int| ls[i].with_eof(t));
        let rs2 = Seq::new(rs.len(), |i: int| rs[i] + d);
        let raws2 = Seq::new(raws.len(), |i: int| raws[i].with_eof(t));
        assert forall|i: int| #![trigger ls2[i]] 0 <= i < raws2.len() implies {
            &&& ls2[i].err is None
            &&& !(ls2[i].state is Eof)
            &&& ls2[i].step_exact(&raws2[i], rs2[i], rs2[i + 1], Ok(ST(sts[i], None)))
            &&& ls2[i + 1] == raws2[i].with_state(sts[i])
        } by {
            assert(ls[i].err is None);
            assert(ls[i].step_exact(&raws[i], rs[i], rs[i + 1], Ok(ST(sts[i], None))));
            self.lemma_silent_eof_at(r, ls, rs, raws, sts, i);
            let _ = rs[i];
            ls[i].lemma_step_extend(raws[i], rs[i], rs[i + 1], Ok(ST(sts[i], None)), d, t);
        }
        assert(ls2[0] == self.with_eof(t));
    }

    /// One call which does not run out of bytes does the same when more
    /// bytes follow, whether or not the end of the document is known.
    proof fn lemma_lexes_extend(&self, c: Seq<u8>, new: Lexer, c1: Seq<u8>, raw_res: LexResult<Option<Token>>,
        d: Seq<u8>, t: bool)
        requires
            !self.has_eof,
            self.lexes(c, new, c1, raw_res),
            !(raw_res matches Err(LexError::EndOfBuffer)),
        ensures
            self.with_eof(t).lexes(c + d, new.with_eof(t), c1 + d, raw_res),
    {
        let (ls, rs, raws, sts) = choose|ls: Seq<Lexer>, rs: Seq<Seq<u8>>, raws: Seq<Lexer>, sts: Seq<State>|
            #![trigger self.silent(c, ls, rs, raws, sts)]
            self.silent(c, ls, rs, raws, sts) && {
                let mid = ls.last();
                let mid_r = rs.last();
                ||| (mid.state is Eof && raw_res == LexResult::<Option<Token>>::Ok(None) && new == mid && c1 == mid_r)
                ||| exists|raw: Lexer, step_res: LexResult<ST>| #![trigger mid.step_exact(&raw, mid_r, c1, step_res)]
                    !(mid.state is Eof) && mid.step_exact(&raw, mid_r, c1, step_res) && match step_res {
                        Ok(ST(st, Some(tok))) => raw_res == LexResult::<Option<Token>>::Ok(Some(tok)) && new == raw.with_state(st),
                        Ok(ST(_, None)) => false,
                        Err(LexError::EndOfBuffer) => raw_res == LexResult::<Option<Token>>::Err(LexError::EndOfBuffer) && new == raw,
                        Err(e) => raw_res == LexResult::<Option<Token>>::Err(e) && new == raw.with_err(e),
                    }
            };
        let mid = ls.last();
        let mid_r = rs.last();
        self.lemma_silent_eof_at(c, ls, rs, raws, sts, ls.len() - 1);
        assert forall|i: int| #![trigger rs[i]] 0 <= i < raws.len() implies
            !(skips_blanks(ls[i].state) && skip_matching_spec(&ByteClass::Space, rs[i]).2 is Eof) by {
            if skips_blanks(ls[i].state) && skip_matching_spec(&ByteClass::Space, rs[i]).2 is Eof {
                self.lemma_silent_eof_at(c, ls, rs, raws, sts, i);
                ls[i].lemma_blank_all_spaces(raws[i], rs[i], rs[i + 1], Ok(ST(sts[i], None)));
                let nx = ls[i + 1];
                self.lemma_silent_eof_at(c, ls, rs, raws, sts, i + 1);
                assert(rs[i + 1] =~= Seq::<u8>::empty());
                if i + 1 < raws.len() {
                    nx.lemma_blank_empty_waits(raws[i + 1], rs[i + 2], Ok(ST(sts[i + 1], None)));
                } else {
                    assert(nx == mid);
                    let (raw, step_res) = choose|raw: Lexer, step_res: LexResult<ST>| #![trigger mid.step_exact(&raw, mid_r, c1, step_res)]
                        !(mid.state is Eof) && mid.step_exact(&raw, mid_r, c1, step_res) && match step_res {
                            Ok(ST(st, Some(tok))) => raw_res == LexResult::<Option<Token>>::Ok(Some(tok)) && new == raw.with_state(st),
                            Ok(ST(_, None)) => false,
                            Err(LexError::EndOfBuffer) => raw_res == LexResult::<Option<Token>>::Err(LexError::EndOfBuffer) && new == raw,
                            Err(e) => raw_res == LexResult::<Option<Token>>::Err(e) && new == raw.with_err(e),
                        };
                    mid.lemma_blank_empty_waits(raw, c1, step_res);
                }
            }
        }
        self.lemma_silent_extend(c, ls, rs, raws, sts, d, t);
        let ls2 = Seq::new(ls.len(), |i: int| ls[i].with_eof(t));
        let rs2 = Seq::new(rs.len(), |i: int| rs[i] + d);
        let raws2 = Seq::new(raws.len(), |i: int| raws[i].with_eof(t));
        assert(ls2.last() == mid.with_eof(t));
        assert(rs2.last() == mid_r + d);
        if mid.state is Eof && raw_res == LexResult::<Option<Token>>::Ok(None) && new == mid && c1 == mid_r {
            assert(self.with_eof(t).lexes(c + d, new.with_eof(t), c1 + d, raw_res));
        } else {
            let (raw, step_res) = choose|raw: Lexer, step_res: LexResult<ST>| #![trigger mid.step_exact(&raw, mid_r, c1, step_res)]
                !(mid.state is Eof) && mid.step_exact(&raw, mid_r, c1, step_res) && match step_res {
                    Ok(ST(st, Some(tok))) => raw_res == LexResult::<Option<Token>>::Ok(Some(tok)) && new == raw.with_state(st),
                    Ok(ST(_, None)) => false,
                    Err(LexError::EndOfBuffer) => raw_res == LexResult::<Option<Token>>::Err(LexError::EndOfBuffer) && new == raw,
                    Err(e) => raw_res == LexResult::<Option<Token>>::Err(e) && new == raw.with_err(e),
                };
            if skips_blanks(mid.state) && skip_matching_spec(&ByteClass::Space, mid_r).2 is Eof {
                mid.lemma_blank_all_spaces(raw, mid_r, c1, step_res);
            }
            mid.lemma_step_extend(raw, mid_r, c1, step_res, d, t);
            assert(mid.with_eof(t).step_exact(&raw.with_eof(t), mid_r + d, c1 + d, step_res));
            assert(self.with_eof(t).lexes(c + d, new.with_eof(t), c1 + d, raw_res));
        }
    }

    /// A silent chain, a silent step from where it ends, and a silent chain
    /// which goes on from after that step, make one silent chain.
    proof fn lemma_silent_join(&self, r: Seq<u8>, ls: Seq<Lexer>, rs: Seq<Seq<u8>>, raws: Seq<Lexer>, sts: Seq<State>,
        b: Lexer, ls2: Seq<Lexer>, rs2: Seq<Seq<u8>>, raws2: Seq<Lexer>, sts2: Seq<State>, fr: Lexer)
        requires
            self.silent(r, ls, rs, raws, sts),
            b.silent(rs2[0], ls2, rs2, raws2, sts2),
            raws2.len() > 0,
            ls.last().err is None,
            !(ls.last().state is Eof),
            ls.last().step_exact(&fr, rs.last(), rs2[1], Ok(ST(sts2[0], None))),
            fr.with_state(sts2[0]) == raws2[0].with_state(sts2[0]),
        ensures
            self.silent(r, ls + ls2.skip(1), rs + rs2.skip(1), raws + raws2.update(0, fr), sts + sts2),
            (ls + ls2.skip(1)).last() == ls2.last(),
            (rs + rs2.skip(1)).last() == rs2.last(),
    {
        let lsw = ls + ls2.skip(1);
        let rsw = rs + rs2.skip(1);
        let rawsw = raws + raws2.update(0, fr);
        let stsw = sts + sts2;
        let k = raws.len() as int;
        assert forall|i: int| #![trigger lsw[i]] 0 <= i < rawsw.len() implies {
            &&& lsw[i].err is None
            &&& !(lsw[i].state is Eof)
            &&& lsw[i].step_exact(&rawsw[i], rsw[i], rsw[i + 1], Ok(ST(stsw[i], None)))
            &&& lsw[i + 1] == rawsw[i].with_state(stsw[i])
        } by {
            if i < k {
                assert(lsw[i] == ls[i] && rsw[i] == rs[i] && rsw[i + 1] == rs[i + 1] && rawsw[i] == raws[i] && stsw[i] == sts[i]);
                assert(ls[i].err is None);
                assert(lsw[i + 1] == ls[i + 1]);
            } else if i == k {
                assert(lsw[i] == ls.last() && rsw[i] == rs.last() && rsw[i + 1] == rs2[1] && rawsw[i] == fr);
                assert(stsw[i] == sts2[0]);
                assert(ls2[0] == b);
                assert(lsw[i + 1] == ls2[1]);
                assert(b.silent(rs2[0], ls2, rs2, raws2, sts2));
                let _ = ls2[0];
            } else {
                let j = i - k;
                assert(lsw[i] == ls2[j] && rsw[i] == rs2[j] && rsw[i + 1] == rs2[j + 1] && rawsw[i] == raws2[j]);
                assert(stsw[i] == sts2[j]);
                assert(lsw[i + 1] == ls2[j + 1]);
                let _ = ls2[j];
            }
        }
        assert(lsw[0] == *self);
        assert(rsw[0] == r);
    }

    /// A step in the blanks inside an element which waits has skipped
    /// blanks up to the end of the bytes, with the end not known.
    proof fn lemma_blank_kinds(&self, raw: Lexer, d: Seq<u8>, r2: Seq<u8>, res: LexResult<ST>)
        requires
            self.state matches State::Element { state: ElementState::Blank, .. },
            self.step_exact(&raw, d, r2, res),
            res == LexResult::<ST>::Err(LexError::EndOfBuffer),
        ensures
            !self.has_eof,
            skip_matching_spec(&ByteClass::Space, d).2 is Eof,
            r2.len() == 0,
            self.waits_with(raw, d),
    {
        reveal(Lexer::step_exact);
        lemma_skip_matching_spec(&ByteClass::Space, d);
        let (n, rest, why) = skip_matching_spec(&ByteClass::Space, d);
        if let Endbyte::Delimiter(b) = why {
            match postblank_spec(self.state->Element_kind, b) {
                Err(e) => {},
                Ok(ns) => {},
            }
        }
        self.lemma_eob_waits(raw, d, r2);
    }

    /// Blanks after a space which run to the end of two pieces of bytes
    /// are skipped by one step over both, which passes to blanks.
    proof fn lemma_special_whole(&self, kind: ElementKind, raw1: Lexer, c: Seq<u8>, d: Seq<u8>, raw_x: Lexer)
        requires
            self.state == (State::Element { kind: kind, state: ElementState::SpaceRequired }),
            !self.has_eof,
            skip_matching_spec(&ByteClass::Space, c).2 is Eof,
            skip_matching_spec(&ByteClass::Space, d).2 is Eof,
            self.step_exact(&raw1, c, Seq::empty(), Ok(ST(State::Element { kind: kind, state: ElementState::Blank }, None))),
            raw_x == (Lexer { ctr: ctr_advance(self.ctr, (c + d).len()), ..raw1 }),
        ensures
            self.step_exact(&raw_x, c + d, Seq::empty(), Ok(ST(State::Element { kind: kind, state: ElementState::Blank }, None))),
    {
        reveal(Lexer::step_exact);
        lemma_skip_matching_resume(&ByteClass::Space, c, d);
        lemma_skip_matching_spec(&ByteClass::Space, c);
        lemma_skip_matching_spec(&ByteClass::Space, d);
        let e = Seq::<u8>::empty();
        assert((c + d).subrange((c + d).len() - e.len(), (c + d).len() as int) =~= e);
    }

    /// In the blanks inside an element, with no bytes and the end not
    /// known, a step waits and changes nothing.
    proof fn lemma_blank_wait_empty(&self, kind: ElementKind)
        requires
            self.state == (State::Element { kind: kind, state: ElementState::Blank }),
            !self.has_eof,
            self.base_wf(),
            self.state_ok(self.state),
        ensures
            self.step_exact(self, Seq::empty(), Seq::empty(), Err(LexError::EndOfBuffer)),
    {
        reveal(Lexer::step_exact);
        self.lemma_frame_refl(Seq::empty());
        lemma_skip_matching_spec(&ByteClass::Space, Seq::<u8>::empty());
    }

    /// Blanks after a space, skipped up to the end of the bytes `c`, then
    /// resumed on `d` in the state after a space, give what one step over
    /// `c` and `d` together gives, unless that step waits.
    proof fn lemma_special_resume(&self, kind: ElementKind, raw1: Lexer, c: Seq<u8>, b0: Lexer, t: bool, raw2: Lexer,
        d: Seq<u8>, d2: Seq<u8>, res2: LexResult<ST>)
        requires
            self.state == (State::Element { kind: kind, state: ElementState::SpaceRequired }),
            !self.has_eof,
            skip_matching_spec(&ByteClass::Space, c).2 is Eof,
            self.step_exact(&raw1, c, Seq::empty(), Ok(ST(State::Element { kind: kind, state: ElementState::Blank }, None))),
            b0.state == (State::Element { kind: kind, state: ElementState::Blank }),
            b0.has_eof == t,
            b0.scratchpad@ == self.scratchpad@,
            b0.swap@ == self.swap@,
            b0.opts == self.opts,
            b0.err == self.err,
            b0.last_token_end == self.last_token_end,
            b0.ctr == ctr_advance(self.ctr, c.len()),
            b0.step_exact(&raw2, d, d2, res2),
            !(res2 matches Err(LexError::EndOfBuffer)),
        ensures
            self.with_eof(t).step_exact(&raw2.with_state(self.state), c + d, d2, res2),
    {
        reveal(Lexer::step_exact);
        lemma_skip_matching_resume(&ByteClass::Space, c, d);
        lemma_skip_matching_spec(&ByteClass::Space, c);
        lemma_skip_matching_spec(&ByteClass::Space, d);
        lemma_ctr_advance_add(self.ctr, c.len(), (d.len() - d2.len()) as nat);
        assert((c + d).subrange((c + d).len() - d2.len(), (c + d).len() as int) =~= d.subrange(d.len() - d2.len(), d.len() as int));
    }

    /// One call which ran out of the bytes `c`, and the next call on the
    /// bytes `d` which follow, give what one call on `c` and `d` together
    /// gives, with a lexer of the same content afterwards.
    #[verifier::rlimit(100)]
    #[verifier::spinoff_prover]
    proof fn lemma_lexes_resume(&self, c: Seq<u8>, l1: Lexer, c1: Seq<u8>, t: bool, d: Seq<u8>, l2: Lexer, d2: Seq<u8>,
        res2: LexResult<Option<Token>>)
        requires
            self.wf(),
            self.err is None,
            !self.has_eof,
            self.lexes(c, l1, c1, Err(LexError::EndOfBuffer)),
            l1.with_eof(t).lexes(d, l2, d2, res2),
        ensures
            c1.len() == 0,
            l1.err is None,
            exists|l2b: Lexer| #[trigger] self.with_eof(t).lexes(c + d, l2b, d2, res2) && l2b.answers_alike(&l2),
    {
        let (ls, rs, raws, sts) = choose|ls: Seq<Lexer>, rs: Seq<Seq<u8>>, raws: Seq<Lexer>, sts: Seq<State>|
            #![trigger self.silent(c, ls, rs, raws, sts)]
            self.silent(c, ls, rs, raws, sts) && {
                let mid = ls.last();
                let mid_r = rs.last();
                ||| (mid.state is Eof && LexResult::<Option<Token>>::Err(LexError::EndOfBuffer) == LexResult::<Option<Token>>::Ok(None) && l1 == mid && c1 == mid_r)
                ||| exists|raw: Lexer, step_res: LexResult<ST>| #![trigger mid.step_exact(&raw, mid_r, c1, step_res)]
                    !(mid.state is Eof) && mid.step_exact(&raw, mid_r, c1, step_res) && match step_res {
                        Ok(ST(st, Some(tok))) => LexResult::<Option<Token>>::Err(LexError::EndOfBuffer) == LexResult::<Option<Token>>::Ok(Some(tok)) && l1 == raw.with_state(st),
                        Ok(ST(_, None)) => false,
                        Err(LexError::EndOfBuffer) => l1 == raw,
                        Err(e) => LexResult::<Option<Token>>::Err(LexError::EndOfBuffer) == LexResult::<Option<Token>>::Err(e) && l1 == raw.with_err(e),
                    }
            };
        let k = raws.len() as int;
        let mid = ls.last();
        let mid_r = rs.last();
        let (raw_e, step_e) = choose|raw: Lexer, step_res: LexResult<ST>| #![trigger mid.step_exact(&raw, mid_r, c1, step_res)]
            !(mid.state is Eof) && mid.step_exact(&raw, mid_r, c1, step_res) && match step_res {
                Ok(ST(st, Some(tok))) => LexResult::<Option<Token>>::Err(LexError::EndOfBuffer) == LexResult::<Option<Token>>::Ok(Some(tok)) && l1 == raw.with_state(st),
                Ok(ST(_, None)) => false,
                Err(LexError::EndOfBuffer) => l1 == raw,
                Err(e) => LexResult::<Option<Token>>::Err(LexError::EndOfBuffer) == LexResult::<Option<Token>>::Err(e) && l1 == raw.with_err(e),
            };
        assert(step_e == LexResult::<ST>::Err(LexError::EndOfBuffer));
        assert(l1 == raw_e);
        self.lemma_silent_eof_at(c, ls, rs, raws, sts, k);
        mid.lemma_step_frame(raw_e, mid_r, c1, step_e);
        mid.lemma_eob_waits(raw_e, mid_r, c1);
        // the chain of the second call
        let b0 = l1.with_eof(t);
        let (ls2, rs2, raws2, sts2) = choose|ls: Seq<Lexer>, rs: Seq<Seq<u8>>, raws: Seq<Lexer>, sts: Seq<State>|
            #![trigger b0.silent(d, ls, rs, raws, sts)]
            b0.silent(d, ls, rs, raws, sts) && {
                let mid = ls.last();
                let mid_r = rs.last();
                ||| (mid.state is Eof && res2 == LexResult::<Option<Token>>::Ok(None) && l2 == mid && d2 == mid_r)
                ||| exists|raw: Lexer, step_res: LexResult<ST>| #![trigger mid.step_exact(&raw, mid_r, d2, step_res)]
                    !(mid.state is Eof) && mid.step_exact(&raw, mid_r, d2, step_res) && match step_res {
                        Ok(ST(st, Some(tok))) => res2 == LexResult::<Option<Token>>::Ok(Some(tok)) && l2 == raw.with_state(st),
                        Ok(ST(_, None)) => false,
                        Err(LexError::EndOfBuffer) => res2 == LexResult::<Option<Token>>::Err(LexError::EndOfBuffer) && l2 == raw,
                        Err(e) => res2 == LexResult::<Option<Token>>::Err(e) && l2 == raw.with_err(e),
                    }
            };
        let j = raws2.len() as int;
        let mid2 = ls2.last();
        let mid2_r = rs2.last();
        assert(ls2[0] == b0 && rs2[0] == d);
        // the first step of the second call
        let (f_raw, f_r, f_res) = if j > 0 {
            (raws2[0], rs2[1], LexResult::<ST>::Ok(ST(sts2[0], None)))
        } else {
            let (raw, step_res) = choose|raw: Lexer, step_res: LexResult<ST>| #![trigger mid2.step_exact(&raw, mid2_r, d2, step_res)]
                !(mid2.state is Eof) && mid2.step_exact(&raw, mid2_r, d2, step_res) && match step_res {
                    Ok(ST(st, Some(tok))) => res2 == LexResult::<Option<Token>>::Ok(Some(tok)) && l2 == raw.with_state(st),
                    Ok(ST(_, None)) => false,
                    Err(LexError::EndOfBuffer) => res2 == LexResult::<Option<Token>>::Err(LexError::EndOfBuffer) && l2 == raw,
                    Err(e) => res2 == LexResult::<Option<Token>>::Err(e) && l2 == raw.with_err(e),
                };
            (raw, d2, step_res)
        };
        assert(b0.step_exact(&f_raw, d, f_r, f_res));
        let special = k > 0 && skips_blanks(ls[k - 1].state) && skip_matching_spec(&ByteClass::Space, rs[k - 1]).2 is Eof;
        assert forall|i: int| #![trigger rs[i]] 0 <= i < k - 1 implies
            !(skips_blanks(ls[i].state) && skip_matching_spec(&ByteClass::Space, rs[i]).2 is Eof) by {
            if skips_blanks(ls[i].state) && skip_matching_spec(&ByteClass::Space, rs[i]).2 is Eof {
                self.lemma_silent_eof_at(c, ls, rs, raws, sts, i);
                ls[i].lemma_blank_all_spaces(raws[i], rs[i], rs[i + 1], Ok(ST(sts[i], None)));
                self.lemma_silent_eof_at(c, ls, rs, raws, sts, i + 1);
                assert(rs[i + 1] =~= Seq::<u8>::empty());
                ls[i + 1].lemma_blank_empty_waits(raws[i + 1], rs[i + 2], Ok(ST(sts[i + 1], None)));
            }
        }
        if !special {
            self.lemma_silent_extend(c, ls, rs, raws, sts, d, t);
            let lsp = Seq::new(ls.len(), |i: int| ls[i].with_eof(t));
            let rsp = Seq::new(rs.len(), |i: int| rs[i] + d);
            let rawsp = Seq::new(raws.len(), |i: int| raws[i].with_eof(t));
            assert(lsp.last() == mid.with_eof(t));
            assert(rsp.last() == mid_r + d);
            assert(mid_r.len() == 0 || k == 0 || true);
            assert(c1 =~= Seq::<u8>::empty());
            mid.lemma_step_resume(raw_e, mid_r, t, f_raw, d, f_r, f_res);
            if j > 0 {
                self.with_eof(t).lemma_silent_join(c + d, lsp, rsp, rawsp, sts, b0, ls2, rs2, raws2, sts2, raws2[0]);
                    assert(raws2.update(0, raws2[0]) =~= raws2);
                assert(self.with_eof(t).lexes(c + d, l2, d2, res2));
            } else {
                assert(self.with_eof(t).lexes(c + d, l2, d2, res2));
            }
            assert(l2.answers_alike(&l2));
        } else {
            assert(c1 =~= Seq::<u8>::empty());
            self.lemma_lexes_resume_blanks(c, ls, rs, raws, sts, raw_e, t, d, b0, ls2, rs2, raws2, sts2, l2, d2, res2,
                f_raw, f_r, f_res);
        }
    }

    /// [`Lexer::lemma_lexes_resume`] where the first call ended skipping
    /// the blanks after a space up to the end of its bytes.
    #[verifier::rlimit(100)]
    #[verifier::spinoff_prover]
    proof fn lemma_lexes_resume_blanks(&self, c: Seq<u8>, ls: Seq<Lexer>, rs: Seq<Seq<u8>>, raws: Seq<Lexer>, sts: Seq<State>,
        raw_e: Lexer, t: bool, d: Seq<u8>, b0: Lexer, ls2: Seq<Lexer>, rs2: Seq<Seq<u8>>, raws2: Seq<Lexer>, sts2: Seq<State>,
        l2: Lexer, d2: Seq<u8>, res2: LexResult<Option<Token>>, f_raw: Lexer, f_r: Seq<u8>, f_res: LexResult<ST>)
        requires
            self.wf(),
            self.err is None,
            !self.has_eof,
            self.silent(c, ls, rs, raws, sts),
            raws.len() > 0,
            skips_blanks(ls[raws.len() - 1].state),
            skip_matching_spec(&ByteClass::Space, rs[raws.len() - 1]).2 is Eof,
            forall|i: int| #![trigger rs[i]] 0 <= i < raws.len() - 1 ==>
                !(skips_blanks(ls[i].state) && skip_matching_spec(&ByteClass::Space, rs[i]).2 is Eof),
            !(ls.last().state is Eof),
            ls.last().step_exact(&raw_e, rs.last(), Seq::empty(), Err(LexError::EndOfBuffer)),
            ls.last().waits_with(raw_e, rs.last()),
            b0 == raw_e.with_eof(t),
            b0.silent(d, ls2, rs2, raws2, sts2),
            ({
                let mid2 = ls2.last();
                let mid2_r = rs2.last();
                ||| (mid2.state is Eof && res2 == LexResult::<Option<Token>>::Ok(None) && l2 == mid2 && d2 == mid2_r)
                ||| exists|raw: Lexer, step_res: LexResult<ST>| #![trigger mid2.step_exact(&raw, mid2_r, d2, step_res)]
                    !(mid2.state is Eof) && mid2.step_exact(&raw, mid2_r, d2, step_res) && match step_res {
                        Ok(ST(st, Some(tok))) => res2 == LexResult::<Option<Token>>::Ok(Some(tok)) && l2 == raw.with_state(st),
                        Ok(ST(_, None)) => false,
                        Err(LexError::EndOfBuffer) => res2 == LexResult::<Option<Token>>::Err(LexError::EndOfBuffer) && l2 == raw,
                        Err(e) => res2 == LexResult::<Option<Token>>::Err(e) && l2 == raw.with_err(e),
                    }
            }),
            b0.step_exact(&f_raw, d, f_r, f_res),
            raws2.len() > 0 ==> f_raw == raws2[0] && f_r == rs2[1] && f_res == LexResult::<ST>::Ok(ST(sts2[0], None)),
            raws2.len() == 0 ==> f_r == d2 && match f_res {
                Ok(ST(st, Some(tok))) => res2 == LexResult::<Option<Token>>::Ok(Some(tok)) && l2 == f_raw.with_state(st),
                Ok(ST(_, None)) => false,
                Err(LexError::EndOfBuffer) => res2 == LexResult::<Option<Token>>::Err(LexError::EndOfBuffer) && l2 == f_raw,
                Err(e) => res2 == LexResult::<Option<Token>>::Err(e) && l2 == f_raw.with_err(e),
            },
        ensures
            exists|l2b: Lexer| #[trigger] self.with_eof(t).lexes(c + d, l2b, d2, res2) && l2b.answers_alike(&l2),
    {
        let k = raws.len() as int;
        let j = raws2.len() as int;
        let mid = ls.last();
        let mid_r = rs.last();
        let s0 = ls[k - 1];
        let cs = rs[k - 1];
        self.lemma_silent_eof_at(c, ls, rs, raws, sts, k - 1);
        s0.lemma_blank_all_spaces(raws[k - 1], cs, rs[k], Ok(ST(sts[k - 1], None)));
        let kind = s0.state->Element_kind;
        assert(s0.state == (State::Element { kind: kind, state: ElementState::SpaceRequired }));
        s0.lemma_step_frame(raws[k - 1], cs, rs[k], Ok(ST(sts[k - 1], None)));
        assert(rs[k] =~= Seq::<u8>::empty());
        assert(mid_r == rs[k]);
        let lst = ls.take(k);
        let rst = rs.take(k);
        let rawst = raws.take(k - 1);
        let stst = sts.take(k - 1);
        assert(self.silent(c, lst, rst, rawst, stst)) by {
            assert forall|i: int| #![trigger lst[i]] 0 <= i < rawst.len() implies {
                &&& lst[i].err is None
                &&& !(lst[i].state is Eof)
                &&& lst[i].step_exact(&rawst[i], rst[i], rst[i + 1], Ok(ST(stst[i], None)))
                &&& lst[i + 1] == rawst[i].with_state(stst[i])
            } by {
                assert(lst[i] == ls[i] && rst[i] == rs[i] && rst[i + 1] == rs[i + 1] && rawst[i] == raws[i] && stst[i] == sts[i]);
                assert(lst[i + 1] == ls[i + 1]);
                assert(ls[i].err is None);
            }
        }
        assert forall|i: int| #![trigger rst[i]] 0 <= i < rawst.len() implies
            !(skips_blanks(lst[i].state) && skip_matching_spec(&ByteClass::Space, rst[i]).2 is Eof) by {
            assert(lst[i] == ls[i] && rst[i] == rs[i]);
            let _ = rs[i];
        }
        self.lemma_silent_extend(c, lst, rst, rawst, stst, d, t);
        let lsp = Seq::new(lst.len(), |i: int| lst[i].with_eof(t));
        let rsp = Seq::new(rst.len(), |i: int| rst[i] + d);
        let rawsp = Seq::new(rawst.len(), |i: int| rawst[i].with_eof(t));
        assert(lsp.last() == s0.with_eof(t));
        assert(rsp.last() == cs + d);
        assert(mid == raws[k - 1].with_state(sts[k - 1]));
        lemma_ctr_advance_zero(mid.ctr);
        if !(f_res matches Err(LexError::EndOfBuffer)) {
            s0.lemma_special_resume(kind, raws[k - 1], cs, b0, t, f_raw, d, f_r, f_res);
            let fr2 = f_raw.with_state(s0.state);
            if j > 0 {
                self.with_eof(t).lemma_silent_join(c + d, lsp, rsp, rawsp, stst, b0, ls2, rs2, raws2, sts2, fr2);
                assert(self.with_eof(t).lexes(c + d, l2, d2, res2));
                assert(l2.answers_alike(&l2));
            } else {
                let l2b = match f_res {
                    Err(e) => fr2.with_err(e),
                    _ => l2,
                };
                assert(self.with_eof(t).lexes(c + d, l2b, d2, res2));
                assert(l2b.answers_alike(&l2));
            }
        } else {
            // the second call waits too: the one call skips all the blanks and waits
            assert(j == 0);
            b0.lemma_blank_kinds(f_raw, d, f_r, f_res);
            assert(!t);
            lemma_ctr_advance_add(s0.ctr, cs.len(), d.len());
            assert(s0.with_eof(t) == s0);
            assert(sts[k - 1] == (State::Element { kind: kind, state: ElementState::Blank }));
            assert(f_r =~= Seq::<u8>::empty());
            self.with_eof(t).lemma_resume_blanks_wait(c + d, lsp, rsp, rawsp, stst, s0, cs, d, raws[k - 1], kind, l2, d2, res2);
        }
    }

    /// Blanks after a space which run to the end of the bytes, and on to
    /// the end of the bytes of the next call, which then waits, are skipped
    /// by one call over both, which waits too.
    #[verifier::rlimit(40)]
    proof fn lemma_resume_blanks_wait(&self, r: Seq<u8>, ls: Seq<Lexer>, rs: Seq<Seq<u8>>, raws: Seq<Lexer>, sts: Seq<State>,
        s0: Lexer, cs: Seq<u8>, d: Seq<u8>, raw1: Lexer, kind: ElementKind, l2: Lexer, d2: Seq<u8>,
        res2: LexResult<Option<Token>>)
        requires
            self.silent(r, ls, rs, raws, sts),
            ls.last() == s0,
            rs.last() == cs + d,
            s0.state == (State::Element { kind: kind, state: ElementState::SpaceRequired }),
            !s0.has_eof,
            s0.err is None,
            skip_matching_spec(&ByteClass::Space, cs).2 is Eof,
            skip_matching_spec(&ByteClass::Space, d).2 is Eof,
            s0.step_exact(&raw1, cs, Seq::empty(), Ok(ST(State::Element { kind: kind, state: ElementState::Blank }, None))),
            l2.state == (State::Element { kind: kind, state: ElementState::Blank }),
            l2.scratchpad@ == raw1.scratchpad@,
            l2.swap@ == raw1.swap@,
            l2.last_token_end == raw1.last_token_end,
            l2.opts == raw1.opts,
            l2.err == raw1.err,
            l2.has_eof == raw1.has_eof,
            l2.ctr == ctr_advance(s0.ctr, (cs + d).len()),
            res2 == LexResult::<Option<Token>>::Err(LexError::EndOfBuffer),
            d2 == Seq::<u8>::empty(),
        ensures
            exists|l2b: Lexer| #[trigger] self.lexes(r, l2b, d2, res2) && l2b.answers_alike(&l2),
    {
        let all = cs + d;
        let blank = State::Element { kind: kind, state: ElementState::Blank };
        s0.lemma_step_frame(raw1, cs, Seq::empty(), Ok(ST(blank, None)));
        let raw_x = Lexer { ctr: ctr_advance(s0.ctr, all.len()), ..raw1 };
        let raw_y = raw_x.with_state(blank);
        lemma_ctr_advance_zero(raw_x.ctr);
        s0.lemma_special_whole(kind, raw1, cs, d, raw_x);
        assert(raw_y.state_ok(raw_y.state));
        raw_y.lemma_blank_wait_empty(kind);
        let lsw = ls.push(raw_y);
        let rsw = rs.push(Seq::<u8>::empty());
        let rawsw = raws.push(raw_x);
        let stsw = sts.push(blank);
        assert(self.silent(r, lsw, rsw, rawsw, stsw)) by {
            assert forall|i: int| #![trigger lsw[i]] 0 <= i < rawsw.len() implies {
                &&& lsw[i].err is None
                &&& !(lsw[i].state is Eof)
                &&& lsw[i].step_exact(&rawsw[i], rsw[i], rsw[i + 1], Ok(ST(stsw[i], None)))
                &&& lsw[i + 1] == rawsw[i].with_state(stsw[i])
            } by {
                if i < raws.len() {
                    assert(lsw[i] == ls[i] && rsw[i] == rs[i] && rsw[i + 1] == rs[i + 1] && rawsw[i] == raws[i]);
                    assert(lsw[i + 1] == ls[i + 1]);
                    let _ = ls[i];
                } else {
                    assert(lsw[i] == s0 && rsw[i] == all && rawsw[i] == raw_x);
                }
            }
        }
        assert(raw_y.answers_alike(&l2));
        assert(lsw.last() == raw_y && rsw.last() == d2);
        assert(raw_y.step_exact(&raw_y, rsw.last(), d2, LexResult::<ST>::Err(LexError::EndOfBuffer)));
        assert(self.lexes(r, raw_y, d2, res2));
    }

    /// A step depends on the lexer only through its content.
    proof fn lemma_step_exact_same_content(&self, b: Lexer, raw: Lexer, r: Seq<u8>, r2: Seq<u8>, res: LexResult<ST>)
        requires
            self.same_content(&b),
            self.step_exact(&raw, r, r2, res),
        ensures
            b.step_exact(&raw, r, r2, res),
    {
        reveal(Lexer::step_exact);
    }

    /// Lexers which hold the same content lex alike: what one call of
    /// [`Lexer::lex_bytes`] can do with the one, it can do with the other,
    /// with the same result and the same bytes left, and a lexer of the
    /// same content afterwards. With [`Lexer::lemma_fresh_same_content`],
    /// a lexer from [`Lexer::new`] lexes as one from
    /// [`Lexer::with_options`] with the default options, call after call.
    pub proof fn law_same_content_lexes_alike(a: Lexer, b: Lexer, at_eof: bool, r: Seq<u8>, new: Lexer,
        new_r: Seq<u8>, res: CrateResult<Option<Token>>)
        requires
            a.same_content(&b),
            a.lexes_bytes(at_eof, r, new, new_r, res),
        ensures
            exists|new2: Lexer| b.lexes_bytes(at_eof, r, new2, new_r, res) && new2.same_content(&new),
    {
        let a2 = a.with_eof(at_eof);
        let b2 = b.with_eof(at_eof);
        assert(a2.same_content(&b2));
        let raw_res = choose|raw_res: LexResult<Option<Token>>| #![trigger a2.lexes(r, new, new_r, raw_res)]
            a2.lexes(r, new, new_r, raw_res) && match raw_res {
                Ok(t) => res == CrateResult::<Option<Token>>::Ok(t),
                Err(LexError::EndOfBuffer) => res matches Err(Error::IO(w)) && w.would_block(),
                Err(e) => res == CrateResult::<Option<Token>>::Err(lex_error_to_crate(e)),
            };
        let (ls, rs, raws, sts) = choose|ls: Seq<Lexer>, rs: Seq<Seq<u8>>, raws: Seq<Lexer>, sts: Seq<State>|
            #![trigger a2.silent(r, ls, rs, raws, sts)]
            a2.silent(r, ls, rs, raws, sts) && {
                let mid = ls.last();
                let mid_r = rs.last();
                ||| (mid.state is Eof && raw_res == LexResult::<Option<Token>>::Ok(None) && new == mid && new_r == mid_r)
                ||| exists|raw: Lexer, step_res: LexResult<ST>| #![trigger mid.step_exact(&raw, mid_r, new_r, step_res)]
                    !(mid.state is Eof) && mid.step_exact(&raw, mid_r, new_r, step_res) && match step_res {
                        Ok(ST(st, Some(tok))) => raw_res == LexResult::<Option<Token>>::Ok(Some(tok)) && new == raw.with_state(st),
                        Ok(ST(_, None)) => false,
                        Err(LexError::EndOfBuffer) => raw_res == LexResult::<Option<Token>>::Err(LexError::EndOfBuffer) && new == raw,
                        Err(e) => raw_res == LexResult::<Option<Token>>::Err(e) && new == raw.with_err(e),
                    }
            };
        let ls2 = ls.update(0, b2);
        assert forall|i: int| #![trigger ls2[i]] 0 <= i < raws.len() implies {
            &&& ls2[i].err is None
            &&& !(ls2[i].state is Eof)
            &&& ls2[i].step_exact(&raws[i], rs[i], rs[i + 1], Ok(ST(sts[i], None)))
            &&& ls2[i + 1] == raws[i].with_state(sts[i])
        } by {
            assert(ls[i].err is None);
            assert(ls[i].step_exact(&raws[i], rs[i], rs[i + 1], Ok(ST(sts[i], None))));
            if i == 0 {
                a2.lemma_step_exact_same_content(b2, raws[0], rs[0], rs[1], Ok(ST(sts[0], None)));
            }
        }
        assert(b2.silent(r, ls2, rs, raws, sts));
        let mid = ls.last();
        let mid2 = ls2.last();
        let mid_r = rs.last();
        if raws.len() > 0 {
            assert(mid2 == mid);
        } else {
            assert(mid == a2 && mid2 == b2);
        }
        if mid.state is Eof && raw_res == LexResult::<Option<Token>>::Ok(None) && new == mid && new_r == mid_r {
            assert(mid2.same_content(&new));
            assert(b2.lexes(r, mid2, new_r, raw_res));
            assert(b.lexes_bytes(at_eof, r, mid2, new_r, res));
        } else {
            let (raw, step_res) = choose|raw: Lexer, step_res: LexResult<ST>| #![trigger mid.step_exact(&raw, mid_r, new_r, step_res)]
                !(mid.state is Eof) && mid.step_exact(&raw, mid_r, new_r, step_res) && match step_res {
                    Ok(ST(st, Some(tok))) => raw_res == LexResult::<Option<Token>>::Ok(Some(tok)) && new == raw.with_state(st),
                    Ok(ST(_, None)) => false,
                    Err(LexError::EndOfBuffer) => raw_res == LexResult::<Option<Token>>::Err(LexError::EndOfBuffer) && new == raw,
                    Err(e) => raw_res == LexResult::<Option<Token>>::Err(e) && new == raw.with_err(e),
                };
            if raws.len() == 0 {
                a2.lemma_step_exact_same_content(b2, raw, mid_r, new_r, step_res);
            }
            assert(mid2.step_exact(&raw, mid_r, new_r, step_res));
            assert(b2.lexes(r, new, new_r, raw_res));
            assert(b.lexes_bytes(at_eof, r, new, new_r, res));
            assert(new.same_content(&new));
        }
    }

    /// The error a call returns for a lexer error is never an I/O error.
    proof fn lemma_lex_error_not_io(e: LexError)
        requires !(e is EndOfBuffer),
        ensures !(lex_error_to_crate(e) is IO),
    {
    }

    /// Bytes which follow change nothing of a call which had enough: a call
    /// of [`Lexer::lex_bytes`] without the end of the document which does
    /// not run out of bytes (it returns a token, the end, or an error other
    /// than an I/O error) returns the same and leaves the same bytes behind
    /// the same lexer when the bytes `d` follow, whether or not the end of
    /// the document is then known.
    pub proof fn law_following_bytes_change_no_finished_call(l: Lexer, c: Seq<u8>, new: Lexer, c1: Seq<u8>,
        res: CrateResult<Option<Token>>, d: Seq<u8>, at_eof: bool)
        requires
            l.lexes_bytes(false, c, new, c1, res),
            !(res matches Err(Error::IO(_))),
        ensures
            l.lexes_bytes(at_eof, c + d, new.with_eof(at_eof), c1 + d, res),
    {
        let l0 = l.with_eof(false);
        let raw_res = choose|raw_res: LexResult<Option<Token>>| #![trigger l0.lexes(c, new, c1, raw_res)]
            l0.lexes(c, new, c1, raw_res) && match raw_res {
                Ok(t) => res == CrateResult::<Option<Token>>::Ok(t),
                Err(LexError::EndOfBuffer) => res matches Err(Error::IO(w)) && w.would_block(),
                Err(e) => res == CrateResult::<Option<Token>>::Err(lex_error_to_crate(e)),
            };
        if let Err(e) = raw_res {
            if !(e is EndOfBuffer) {
                Lexer::lemma_lex_error_not_io(e);
            }
        }
        l0.lemma_lexes_extend(c, new, c1, raw_res, d, at_eof);
        assert(l0.with_eof(at_eof) == l.with_eof(at_eof));
    }

    /// Lexing resumes where it ran out of bytes: when a call of
    /// [`Lexer::lex_bytes`] on the bytes `c`, without the end of the
    /// document, fails with an I/O error (it ran out of bytes, `WouldBlock`),
    /// it has consumed all of `c`, and the next call on the bytes `d` which
    /// follow returns what one call on `c` and `d` together returns, leaves
    /// the same bytes, and a lexer which answers every later call alike.
    /// Feeding a document in pieces, each until `WouldBlock`, thus gives the
    /// tokens and the outcome of feeding it whole.
    pub proof fn law_lexing_resumes_after_would_block(l: Lexer, c: Seq<u8>, l1: Lexer, c1: Seq<u8>,
        res1: CrateResult<Option<Token>>, at_eof: bool, d: Seq<u8>, l2: Lexer, d2: Seq<u8>, res2: CrateResult<Option<Token>>)
        requires
            l.wf(),
            l.cached_error() is None,
            l.lexes_bytes(false, c, l1, c1, res1),
            res1 matches Err(Error::IO(_)),
            l1.lexes_bytes(at_eof, d, l2, d2, res2),
        ensures
            c1.len() == 0,
            l1.cached_error() is None,
            exists|l2b: Lexer| #[trigger] l.lexes_bytes(at_eof, c + d, l2b, d2, res2) && l2b.answers_alike(&l2),
    {
        let l0 = l.with_eof(false);
        let raw1 = choose|raw_res: LexResult<Option<Token>>| #![trigger l0.lexes(c, l1, c1, raw_res)]
            l0.lexes(c, l1, c1, raw_res) && match raw_res {
                Ok(t) => res1 == CrateResult::<Option<Token>>::Ok(t),
                Err(LexError::EndOfBuffer) => res1 matches Err(Error::IO(w)) && w.would_block(),
                Err(e) => res1 == CrateResult::<Option<Token>>::Err(lex_error_to_crate(e)),
            };
        if let Err(e) = raw1 {
            if !(e is EndOfBuffer) {
                Lexer::lemma_lex_error_not_io(e);
            }
        }
        assert(raw1 == LexResult::<Option<Token>>::Err(LexError::EndOfBuffer));
        let b1 = l1.with_eof(at_eof);
        let raw2 = choose|raw_res: LexResult<Option<Token>>| #![trigger b1.lexes(d, l2, d2, raw_res)]
            b1.lexes(d, l2, d2, raw_res) && match raw_res {
                Ok(t) => res2 == CrateResult::<Option<Token>>::Ok(t),
                Err(LexError::EndOfBuffer) => res2 matches Err(Error::IO(w)) && w.would_block(),
                Err(e) => res2 == CrateResult::<Option<Token>>::Err(lex_error_to_crate(e)),
            };
        l0.lemma_lexes_resume(c, l1, c1, at_eof, d, l2, d2, raw2);
        let l2b = choose|l2b: Lexer| #[trigger] l0.with_eof(at_eof).lexes(c + d, l2b, d2, raw2) && l2b.answers_alike(&l2);
        assert(l0.with_eof(at_eof) == l.with_eof(at_eof));
        assert(l.lexes_bytes(at_eof, c + d, l2b, d2, res2));
    }

    /// The end-of-file flag changes neither the failure nor the invariant
    /// of a lexer, nor what a call does, which sets the flag anew.
    proof fn lemma_with_eof_facts(&self, t: bool, u: bool)
        ensures
            self.with_eof(t).cached_error() == self.cached_error(),
            self.with_eof(t).wf() == self.wf(),
            self.with_eof(t).with_eof(u) == self.with_eof(u),
    {
    }

    /// A call keeps the invariant of the lexer.
    proof fn lemma_lexes_bytes_wf(&self, at_eof: bool, r: Seq<u8>, new: Lexer, new_r: Seq<u8>, res: CrateResult<Option<Token>>)
        requires
            self.wf(),
            self.err is None,
            self.lexes_bytes(at_eof, r, new, new_r, res),
        ensures
            new.wf(),
            res matches Err(Error::IO(_)) ==> new.err is None,
            res is Ok ==> new.err is None,
    {
        let l0 = self.with_eof(at_eof);
        let raw_res = choose|raw_res: LexResult<Option<Token>>| #![trigger l0.lexes(r, new, new_r, raw_res)]
            l0.lexes(r, new, new_r, raw_res) && match raw_res {
                Ok(t) => res == CrateResult::<Option<Token>>::Ok(t),
                Err(LexError::EndOfBuffer) => res matches Err(Error::IO(w)) && w.would_block(),
                Err(e) => res == CrateResult::<Option<Token>>::Err(lex_error_to_crate(e)),
            };
        let (ls, rs, raws, sts) = choose|ls: Seq<Lexer>, rs: Seq<Seq<u8>>, raws: Seq<Lexer>, sts: Seq<State>|
            #![trigger l0.silent(r, ls, rs, raws, sts)]
            l0.silent(r, ls, rs, raws, sts) && {
                let mid = ls.last();
                let mid_r = rs.last();
                ||| (mid.state is Eof && raw_res == LexResult::<Option<Token>>::Ok(None) && new == mid && new_r == mid_r)
                ||| exists|raw: Lexer, step_res: LexResult<ST>| #![trigger mid.step_exact(&raw, mid_r, new_r, step_res)]
                    !(mid.state is Eof) && mid.step_exact(&raw, mid_r, new_r, step_res) && match step_res {
                        Ok(ST(st, Some(tok))) => raw_res == LexResult::<Option<Token>>::Ok(Some(tok)) && new == raw.with_state(st),
                        Ok(ST(_, None)) => false,
                        Err(LexError::EndOfBuffer) => raw_res == LexResult::<Option<Token>>::Err(LexError::EndOfBuffer) && new == raw,
                        Err(e) => raw_res == LexResult::<Option<Token>>::Err(e) && new == raw.with_err(e),
                    }
            };
        let mid = ls.last();
        let mid_r = rs.last();
        l0.lemma_silent_eof_at(r, ls, rs, raws, sts, ls.len() - 1);
        if !(mid.state is Eof && raw_res == LexResult::<Option<Token>>::Ok(None) && new == mid && new_r == mid_r) {
            let (raw, step_res) = choose|raw: Lexer, step_res: LexResult<ST>| #![trigger mid.step_exact(&raw, mid_r, new_r, step_res)]
                !(mid.state is Eof) && mid.step_exact(&raw, mid_r, new_r, step_res) && match step_res {
                    Ok(ST(st, Some(tok))) => raw_res == LexResult::<Option<Token>>::Ok(Some(tok)) && new == raw.with_state(st),
                    Ok(ST(_, None)) => false,
                    Err(LexError::EndOfBuffer) => raw_res == LexResult::<Option<Token>>::Err(LexError::EndOfBuffer) && new == raw,
                    Err(e) => raw_res == LexResult::<Option<Token>>::Err(e) && new == raw.with_err(e),
                };
            mid.lemma_step_frame(raw, mid_r, new_r, step_res);
            if let Err(e) = raw_res {
                if !(e is EndOfBuffer) {
                    Lexer::lemma_lex_error_not_io(e);
                }
            }
        }
    }

    /// Whether two lexers answer alike does not depend on the order.
    proof fn lemma_alike_symmetric(&self, other: &Lexer)
        requires self.answers_alike(other),
        ensures other.answers_alike(self),
    {
    }

    /// Lexers which answer alike deliver alike: what a series of calls
    /// delivers from the one, it can deliver from the other.
    proof fn lemma_alike_delivers(a: Lexer, b: Lexer, at_eof: bool, s: Seq<u8>, got: Seq<CrateResult<Option<Token>>>,
        new: Lexer, new_s: Seq<u8>)
        requires
            a.answers_alike(&b),
            lexer_delivers(a, at_eof, s, got, new, new_s),
        ensures
            exists|new2: Lexer| #[trigger] lexer_delivers(b, at_eof, s, got, new2, new_s) && new2.answers_alike(&new),
        decreases got.len(),
    {
        if got.len() == 0 {
            b.lemma_alike_symmetric(&a);
            assert(lexer_delivers(b, at_eof, s, got, b, new_s));
        } else {
            let (mid, mid_s) = choose|mid: Lexer, mid_s: Seq<u8>| #![trigger lexer_reads(mid, at_eof, mid_s, new, new_s, got.last())]
                lexer_delivers(a, at_eof, s, got.drop_last(), mid, mid_s)
                && lexer_reads(mid, at_eof, mid_s, new, new_s, got.last());
            Lexer::lemma_alike_delivers(a, b, at_eof, s, got.drop_last(), mid, mid_s);
            let mid2 = choose|mid2: Lexer| #[trigger] lexer_delivers(b, at_eof, s, got.drop_last(), mid2, mid_s)
                && mid2.answers_alike(&mid);
            if mid.err is Some {
                assert(lexer_reads(mid2, at_eof, mid_s, new, new_s, got.last()));
                lemma_lexer_delivers_push(b, at_eof, s, got.drop_last(), mid2, mid_s, new, new_s, got.last());
                assert(got.drop_last().push(got.last()) =~= got);
                assert(new.answers_alike(&new));
            } else {
                assert(mid.same_content(&mid2));
                Lexer::law_same_content_lexes_alike(mid, mid2, at_eof, mid_s, new, new_s, got.last());
                let new2 = choose|new2: Lexer| mid2.lexes_bytes(at_eof, mid_s, new2, new_s, got.last()) && new2.same_content(&new);
                assert(lexer_reads(mid2, at_eof, mid_s, new2, new_s, got.last()));
                lemma_lexer_delivers_push(b, at_eof, s, got.drop_last(), mid2, mid_s, new2, new_s, got.last());
                assert(got.drop_last().push(got.last()) =~= got);
                assert(new2.answers_alike(&new));
            }
        }
    }

    /// The first of a series of calls, and the rest.
    proof fn lemma_delivers_first(l: Lexer, at_eof: bool, s: Seq<u8>, got: Seq<CrateResult<Option<Token>>>,
        new: Lexer, new_s: Seq<u8>)
        requires
            got.len() > 0,
            lexer_delivers(l, at_eof, s, got, new, new_s),
        ensures
            exists|mid: Lexer, mid_s: Seq<u8>| #[trigger] lexer_reads(l, at_eof, s, mid, mid_s, got[0])
                && lexer_delivers(mid, at_eof, mid_s, got.skip(1), new, new_s),
        decreases got.len(),
    {
        let (m2, m2_s) = choose|mid: Lexer, mid_s: Seq<u8>| #![trigger lexer_reads(mid, at_eof, mid_s, new, new_s, got.last())]
            lexer_delivers(l, at_eof, s, got.drop_last(), mid, mid_s)
            && lexer_reads(mid, at_eof, mid_s, new, new_s, got.last());
        if got.len() == 1 {
            assert(m2 == l && m2_s == s);
            assert(got.skip(1).len() == 0);
            assert(lexer_delivers(new, at_eof, new_s, got.skip(1), new, new_s));
            assert(got[0] == got.last());
        } else {
            Lexer::lemma_delivers_first(l, at_eof, s, got.drop_last(), m2, m2_s);
            let (mid, mid_s) = choose|mid: Lexer, mid_s: Seq<u8>| #[trigger] lexer_reads(l, at_eof, s, mid, mid_s, got.drop_last()[0])
                && lexer_delivers(mid, at_eof, mid_s, got.drop_last().skip(1), m2, m2_s);
            lemma_lexer_delivers_push(mid, at_eof, mid_s, got.drop_last().skip(1), m2, m2_s, new, new_s, got.last());
            assert(got.drop_last().skip(1).push(got.last()) =~= got.skip(1));
            assert(got.drop_last()[0] == got[0]);
        }
    }

    /// Calls which each gave a token or the end, without the end of the
    /// document, give the same when more bytes follow.
    #[verifier::rlimit(60)]
    #[verifier::spinoff_prover]
    proof fn lemma_finished_calls_extend(l: Lexer, c: Seq<u8>, got: Seq<CrateResult<Option<Token>>>, m: Lexer, cm: Seq<u8>,
        d: Seq<u8>, at_eof: bool)
        requires
            l.wf(),
            l.cached_error() is None,
            lexer_delivers(l, false, c, got, m, cm),
            forall|i: int| 0 <= i < got.len() ==> (#[trigger] got[i]) is Ok,
        ensures
            m.wf(),
            m.cached_error() is None,
            lexer_delivers(l.with_eof(at_eof), at_eof, c + d, got, m.with_eof(at_eof), cm + d),
        decreases got.len(),
    {
        if got.len() == 0 {
            assert(lexer_delivers(l.with_eof(at_eof), at_eof, c + d, got, m.with_eof(at_eof), cm + d));
        } else {
            let (mid, mid_s) = choose|mid: Lexer, mid_s: Seq<u8>| #![trigger lexer_reads(mid, false, mid_s, m, cm, got.last())]
                lexer_delivers(l, false, c, got.drop_last(), mid, mid_s)
                && lexer_reads(mid, false, mid_s, m, cm, got.last());
            assert forall|i: int| 0 <= i < got.drop_last().len() implies (#[trigger] got.drop_last()[i]) is Ok by {
                assert(got.drop_last()[i] == got[i]);
            }
            Lexer::lemma_finished_calls_extend(l, c, got.drop_last(), mid, mid_s, d, at_eof);
            assert(got.last() is Ok);
            mid.lemma_lexes_bytes_wf(false, mid_s, m, cm, got.last());
            Lexer::law_following_bytes_change_no_finished_call(mid, mid_s, m, cm, got.last(), d, at_eof);
            let mw = mid.with_eof(at_eof);
            mid.lemma_with_eof_facts(at_eof, at_eof);
            m.lemma_with_eof_facts(at_eof, at_eof);
            assert(mw.lexes_bytes(at_eof, mid_s + d, m.with_eof(at_eof), cm + d, got.last()));
            assert(lexer_reads(mw, at_eof, mid_s + d, m.with_eof(at_eof), cm + d, got.last()));
            lemma_lexer_delivers_push(l.with_eof(at_eof), at_eof, c + d, got.drop_last(), mw, mid_s + d,
                m.with_eof(at_eof), cm + d, got.last());
            assert(got.drop_last().push(got.last()) =~= got);
        }
    }

    /// The end-of-file flag of the first lexer of a series of calls does
    /// not matter: each call sets it anew.
    proof fn lemma_delivers_with_eof(l: Lexer, t: bool, s: Seq<u8>, got: Seq<CrateResult<Option<Token>>>,
        new: Lexer, new_s: Seq<u8>)
        requires
            got.len() > 0,
            lexer_delivers(l.with_eof(t), t, s, got, new, new_s),
        ensures
            lexer_delivers(l, t, s, got, new, new_s),
        decreases got.len(),
    {
        let (mid, mid_s) = choose|mid: Lexer, mid_s: Seq<u8>| #![trigger lexer_reads(mid, t, mid_s, new, new_s, got.last())]
            lexer_delivers(l.with_eof(t), t, s, got.drop_last(), mid, mid_s)
            && lexer_reads(mid, t, mid_s, new, new_s, got.last());
        if got.len() == 1 {
            assert(mid == l.with_eof(t) && mid_s == s);
            l.lemma_with_eof_facts(t, t);
            assert(l.with_eof(t).lexes_bytes(t, s, new, new_s, got.last()) == l.lexes_bytes(t, s, new, new_s, got.last()));
            assert(lexer_reads(l, t, s, new, new_s, got.last()));
            assert(lexer_delivers(l, t, s, got.drop_last(), l, s));
            lemma_lexer_delivers_push(l, t, s, got.drop_last(), l, s, new, new_s, got.last());
        } else {
            Lexer::lemma_delivers_with_eof(l, t, s, got.drop_last(), mid, mid_s);
            lemma_lexer_delivers_push(l, t, s, got.drop_last(), mid, mid_s, new, new_s, got.last());
        }
        assert(got.drop_last().push(got.last()) =~= got);
    }

    /// Fresh lexers with the same options deliver alike: what a series of
    /// calls of [`Lexer::lex_bytes`] delivers from the one, it can deliver
    /// from the other, with the same bytes left and a lexer which answers
    /// every later call alike. So a lexer from [`Lexer::new`] lexes as one
    /// from [`Lexer::with_options`] with the default options.
    pub proof fn law_fresh_lexers_deliver_alike(a: Lexer, b: Lexer, at_eof: bool, s: Seq<u8>,
        got: Seq<CrateResult<Option<Token>>>, new: Lexer, new_s: Seq<u8>)
        requires
            a.is_fresh(),
            b.is_fresh(),
            a.options() == b.options(),
            lexer_delivers(a, at_eof, s, got, new, new_s),
        ensures
            exists|new2: Lexer| #[trigger] lexer_delivers(b, at_eof, s, got, new2, new_s) && new2.answers_alike(&new),
    {
        Lexer::lemma_fresh_same_content(&a, &b);
        Lexer::lemma_alike_delivers(a, b, at_eof, s, got, new, new_s);
    }

    /// A document fed in two pieces lexes as the two pieces together: the
    /// lexer `l`, given the bytes `c` without the end of the document,
    /// delivered the tokens `got1` and then ran out of bytes (an I/O error,
    /// `WouldBlock`), having consumed all of `c`; given the bytes `d` which
    /// follow, with the end-of-document flag `at_eof`, it delivered
    /// `got2`. Then `l`, given `c` and `d` together with that flag, delivers
    /// `got1` followed by `got2`, leaves the same bytes, and a lexer which
    /// answers every later call alike. By induction, a document fed in any
    /// number of pieces, each until `WouldBlock`, lexes as the whole.
    pub proof fn law_lexing_in_two_pieces(l: Lexer, c: Seq<u8>, got1: Seq<CrateResult<Option<Token>>>, m: Lexer, cm: Seq<u8>,
        l1: Lexer, c1: Seq<u8>, r1: CrateResult<Option<Token>>, at_eof: bool, d: Seq<u8>,
        got2: Seq<CrateResult<Option<Token>>>, l2: Lexer, d2: Seq<u8>)
        requires
            l.wf(),
            l.cached_error() is None,
            lexer_delivers(l, false, c, got1, m, cm),
            forall|i: int| 0 <= i < got1.len() ==> (#[trigger] got1[i]) is Ok,
            lexer_reads(m, false, cm, l1, c1, r1),
            r1 matches Err(Error::IO(_)),
            got2.len() > 0,
            lexer_delivers(l1, at_eof, d, got2, l2, d2),
        ensures
            c1.len() == 0,
            exists|l2b: Lexer| #[trigger] lexer_delivers(l, at_eof, c + d, got1 + got2, l2b, d2) && l2b.answers_alike(&l2),
    {
        Lexer::lemma_finished_calls_extend(l, c, got1, m, cm, d, at_eof);
        Lexer::lemma_delivers_first(l1, at_eof, d, got2, l2, d2);
        let (mid, mid_s) = choose|mid: Lexer, mid_s: Seq<u8>| #[trigger] lexer_reads(l1, at_eof, d, mid, mid_s, got2[0])
            && lexer_delivers(mid, at_eof, mid_s, got2.skip(1), l2, d2);
        assert(m.lexes_bytes(false, cm, l1, c1, r1));
        m.lemma_lexes_bytes_wf(false, cm, l1, c1, r1);
        assert(l1.cached_error() is None);
        Lexer::law_lexing_resumes_after_would_block(m, cm, l1, c1, r1, at_eof, d, mid, mid_s, got2[0]);
        let mb = choose|l2b: Lexer| #[trigger] m.lexes_bytes(at_eof, cm + d, l2b, mid_s, got2[0]) && l2b.answers_alike(&mid);
        let mw = m.with_eof(at_eof);
        m.lemma_with_eof_facts(at_eof, at_eof);
        assert(mw.lexes_bytes(at_eof, cm + d, mb, mid_s, got2[0]));
        assert(lexer_reads(mw, at_eof, cm + d, mb, mid_s, got2[0]));
        l.lemma_with_eof_facts(at_eof, at_eof);
        lemma_lexer_delivers_push(l.with_eof(at_eof), at_eof, c + d, got1, mw, cm + d, mb, mid_s, got2[0]);
        mb.lemma_alike_symmetric(&mid);
        Lexer::lemma_alike_delivers(mid, mb, at_eof, mid_s, got2.skip(1), l2, d2);
        let l2b = choose|new2: Lexer| #[trigger] lexer_delivers(mb, at_eof, mid_s, got2.skip(1), new2, d2) && new2.answers_alike(&l2);
        lemma_lexer_delivers_concat(l.with_eof(at_eof), at_eof, c + d, got1.push(got2[0]), mb, mid_s, got2.skip(1), l2b, d2);
        assert(got1.push(got2[0]) + got2.skip(1) =~= got1 + got2);
        Lexer::lemma_delivers_with_eof(l, at_eof, c + d, got1 + got2, l2b, d2);
    }

    /// A fresh lexer given `<` and then a byte which can start neither a
    /// name nor a declaration, section or end tag rejects the byte:
    /// element names must begin with a name start character.
    pub proof fn law_element_name_must_start_with_name_start(l: Lexer, b: u8, rest: Seq<u8>, at_eof: bool,
        new: Lexer, new_r: Seq<u8>, res: CrateResult<Option<Token>>)
        requires
            l.wf(),
            l.is_fresh(),
            !spec_is_namestart_byte(b),
            b != 0x3f,
            b != 0x21,
            b != 0x2f,
            l.lexes_bytes(at_eof, seq![0x3cu8, b] + rest, new, new_r, res),
        ensures
            res == CrateResult::<Option<Token>>::Err(Error::NotWellFormed(XmlError::UnexpectedByte(ERRCTX_NAMESTART, b, None))),
    {
        let s = seq![0x3cu8, b] + rest;
        let l2 = l.with_eof(at_eof);
        assert(l2.wf());
        let raw_res = choose|raw_res: LexResult<Option<Token>>| #![trigger l2.lexes(s, new, new_r, raw_res)]
            l2.lexes(s, new, new_r, raw_res) && match raw_res {
                Ok(t) => res == CrateResult::<Option<Token>>::Ok(t),
                Err(LexError::EndOfBuffer) => res matches Err(Error::IO(w)) && w.would_block(),
                Err(e) => res == CrateResult::<Option<Token>>::Err(lex_error_to_crate(e)),
            };
        let (ls, rs, raws, sts) = choose|ls: Seq<Lexer>, rs: Seq<Seq<u8>>, raws: Seq<Lexer>, sts: Seq<State>|
            #![trigger l2.silent(s, ls, rs, raws, sts)]
            l2.silent(s, ls, rs, raws, sts) && {
                let mid = ls.last();
                let mid_r = rs.last();
                ||| (mid.state is Eof && raw_res == LexResult::<Option<Token>>::Ok(None) && new == mid && new_r == mid_r)
                ||| exists|raw: Lexer, step_res: LexResult<ST>| #![trigger mid.step_exact(&raw, mid_r, new_r, step_res)]
                    !(mid.state is Eof) && mid.step_exact(&raw, mid_r, new_r, step_res) && match step_res {
                        Ok(ST(st, Some(tok))) => raw_res == LexResult::<Option<Token>>::Ok(Some(tok)) && new == raw.with_state(st),
                        Ok(ST(_, None)) => false,
                        Err(LexError::EndOfBuffer) => raw_res == LexResult::<Option<Token>>::Err(LexError::EndOfBuffer) && new == raw,
                        Err(e) => raw_res == LexResult::<Option<Token>>::Err(e) && new == raw.with_err(e),
                    }
            };
        assert(s[0] == 0x3c);
        assert(s.len() >= 2);
        if raws.len() == 0 {
            assert(ls.last() == l2);
            assert(rs.last() == s);
            let (raw, step_res) = choose|raw: Lexer, step_res: LexResult<ST>| #![trigger l2.step_exact(&raw, s, new_r, step_res)]
                !(l2.state is Eof) && l2.step_exact(&raw, s, new_r, step_res) && match step_res {
                        Ok(ST(st, Some(tok))) => raw_res == LexResult::<Option<Token>>::Ok(Some(tok)) && new == raw.with_state(st),
                        Ok(ST(_, None)) => false,
                        Err(LexError::EndOfBuffer) => raw_res == LexResult::<Option<Token>>::Err(LexError::EndOfBuffer) && new == raw,
                        Err(e) => raw_res == LexResult::<Option<Token>>::Err(e) && new == raw.with_err(e),
                    };
            l2.lemma_step_markup_open(raw, s, new_r, step_res);
        } else {
            assert(ls[0] == l2);
            l2.lemma_step_markup_open(raws[0], rs[0], rs[1], Ok(ST(sts[0], None)));
            assert(rs[1][0] == b);
            let l3 = ls[1];
            assert(l3 == raws[0].with_state(sts[0]));
            if raws.len() >= 2 {
                assert(ls[1].err is None);
                l3.lemma_step_bad_name_start(raws[1], rs[1], rs[2], Ok(ST(sts[1], None)));
            } else {
                assert(ls.last() == l3);
                assert(rs.last() == rs[1]);
                assert(!(l3.state is Eof));
                let (raw, step_res) = choose|raw: Lexer, step_res: LexResult<ST>| #![trigger l3.step_exact(&raw, rs[1], new_r, step_res)]
                    !(l3.state is Eof) && l3.step_exact(&raw, rs[1], new_r, step_res) && match step_res {
                        Ok(ST(st, Some(tok))) => raw_res == LexResult::<Option<Token>>::Ok(Some(tok)) && new == raw.with_state(st),
                        Ok(ST(_, None)) => false,
                        Err(LexError::EndOfBuffer) => raw_res == LexResult::<Option<Token>>::Err(LexError::EndOfBuffer) && new == raw,
                        Err(e) => raw_res == LexResult::<Option<Token>>::Err(e) && new == raw.with_err(e),
                    };
                l3.lemma_step_bad_name_start(raw, rs[1], new_r, step_res);
                assert(raw_res == LexResult::<Option<Token>>::Err(LexError::NotWellFormed(XmlError::UnexpectedByte(ERRCTX_NAMESTART, b, None))));
            }
        }
    }

    /// Lex until a token, the end of the document or an error.
    #[verifier::rlimit(80)]
    fn lex_bytes_raw(&mut self, r: &mut &[u8]) -> (res: LexResult<Option<Token>>)
        requires old(self).wf(),
        ensures
            final(self).wf(),
            final(self).opts == old(self).opts,
            final(self).has_eof == old(self).has_eof,
            final(r)@.len() <= old(r)@.len(),
            final(r)@ == old(r)@.subrange(old(r)@.len() - final(r)@.len(), old(r)@.len() as int),
            final(self).ctr == ctr_advance(old(self).ctr, (old(r)@.len() - final(r)@.len()) as nat),
            old(self).err matches Some(e) ==> res == LexResult::<Option<Token>>::Err(e)
                && *final(self) == *old(self) && final(r)@ == old(r)@,
            old(self).err is None && old(self).state is Eof ==> res == LexResult::<Option<Token>>::Ok(None)
                && *final(self) == *old(self) && final(r)@ == old(r)@,
            old(self).err is None ==> old(self).lexes(old(r)@, *final(self), final(r)@, res),
            old(self).err is None ==> match res {
                Ok(None) => final(self).state is Eof && final(self).err is None,
                Ok(Some(_)) => final(self).err is None,
                Err(LexError::EndOfBuffer) => !old(self).has_eof && final(r)@.len() == 0
                    && final(self).err is None,
                Err(e) => final(self).err == Some(e),
            },
    {
        if let Some(e) = self.err {
            proof { lemma_ctr_advance_zero(self.ctr); assert(r@.subrange(0, r@.len() as int) =~= r@); }
            return Err(e);
        }
        let ghost self0 = *self;
        let ghost r0 = r@;
        let ghost mut ls: Seq<Lexer> = seq![*self];
        let ghost mut rs: Seq<Seq<u8>> = seq![r@];
        let ghost mut raws: Seq<Lexer> = Seq::empty();
        let ghost mut sts: Seq<State> = Seq::empty();
        proof { self.lemma_frame_refl(r@); }
        loop
            invariant
                self.wf(),
                self.err is None,
                self.opts == self0.opts,
                self.has_eof == self0.has_eof,
                self0.err is None,
                self0.base_wf(),
                self0 == *old(self),
                r0 == old(r)@,
                r@.len() <= r0.len(),
                r@ == r0.subrange(r0.len() - r@.len(), r0.len() as int),
                self.ctr == ctr_advance(self0.ctr, (r0.len() - r@.len()) as nat),
                self0.state is Eof ==> *self == self0 && r@ == r0,
                self0.silent(r0, ls, rs, raws, sts),
                ls.last() == *self,
                rs.last() == r@,
            decreases r@.len(), if self.state is Eof { 0nat } else { 1nat },
        {
            let ghost before = *self;
            let ghost rb = r@;
            let stresult = match self.state {
                State::Content(substate) => self.lex_content(substate, r),
                State::Element { kind, state: substate } => self.lex_element(kind, substate, r),
                State::Reference { ctx, ret, kind } => self.lex_reference(ctx, ret, kind, r),
                State::Eof => {
                    return Ok(None);
                },
            };
            let ghost raw = *self;
            proof {
                lemma_ctr_advance_add(self0.ctr, (r0.len() - rb.len()) as nat, (rb.len() - r@.len()) as nat);
                assert(r@ =~= r0.subrange(r0.len() - r@.len(), r0.len() as int));
                assert(before.step_exact(&raw, rb, r@, stresult)) by {
                    reveal(Lexer::step_exact);
                }
            }
            let st = match stresult {
                Err(LexError::EndOfBuffer) => {
                    return Err(LexError::EndOfBuffer);
                },
                Err(other) => {
                    self.err = Some(other);
                    proof {
                        assert(*self == raw.with_err(other));
                    }
                    return Err(other);
                },
                Ok(st) => st,
            };
            self.state = st.0;
            proof {
                assert(*self == raw.with_state(st.0));
            }
            match st.1 {
                Some(tok) => {
                    return Ok(Some(tok));
                },
                None => {},
            }
            proof {
                assert(before.step_exact(&raw, rb, r@, Ok(ST(st.0, None))));
                let k = raws.len() as int;
                let ls2 = ls.push(*self);
                let rs2 = rs.push(r@);
                let raws2 = raws.push(raw);
                let sts2 = sts.push(st.0);
                assert forall|i: int| #![trigger ls2[i]] 0 <= i < raws2.len() implies {
                    &&& ls2[i].err is None
                    &&& !(ls2[i].state is Eof)
                    &&& ls2[i].step_exact(&raws2[i], rs2[i], rs2[i + 1], Ok(ST(sts2[i], None)))
                    &&& ls2[i + 1] == raws2[i].with_state(sts2[i])
                } by {
                    if i < k {
                        assert(ls2[i] == ls[i]);
                        assert(ls[i].err is None);
                        assert(ls2[i + 1] == ls[i + 1]);
                    } else {
                        assert(ls2[i] == before);
                    }
                }
                ls = ls2;
                rs = rs2;
                raws = raws2;
                sts = sts2;
                assert(self0.silent(r0, ls, rs, raws, sts));
            }

        }
    }

    /// Lex bytes from the buffer, advancing the slice past every byte
    /// consumed, until an error occurs, a token is produced or the buffer is
    /// at its end.
    ///
    /// If `at_eof` is false, the end of the buffer is a temporary situation
    /// and an I/O error of kind `WouldBlock` is returned when it is
    /// reached; otherwise it is the end of the document.
    ///
    /// Returns `None` at a valid end of the document, a token if one is
    /// complete, or an error. All errors but the I/O error are returned again
    /// on every later call, without consuming anything.
    pub fn lex_bytes(&mut self, r: &mut &[u8], at_eof: bool) -> (res: CrateResult<Option<Token>>)
        requires old(self).wf(),
        ensures
            final(self).wf(),
            final(self).options() == old(self).options(),
            final(r)@.len() <= old(r)@.len(),
            final(r)@ == old(r)@.subrange(old(r)@.len() - final(r)@.len(), old(r)@.len() as int),
            final(self).spec_ctr() == ctr_advance(old(self).spec_ctr(), (old(r)@.len() - final(r)@.len()) as nat),
            old(self).cached_error() matches Some(e) ==> res == CrateResult::<Option<Token>>::Err(e)
                && final(r)@ == old(r)@ && final(self).cached_error() == old(self).cached_error(),
            old(self).cached_error() is None && old(self).at_end() ==> res == CrateResult::<Option<Token>>::Ok(None)
                && final(r)@ == old(r)@ && final(self).at_end(),
            old(self).cached_error() is None ==> old(self).lexes_bytes(at_eof, old(r)@, *final(self), final(r)@, res),
            old(self).cached_error() is None ==> match res {
                Ok(None) => final(self).at_end() && final(self).cached_error() is None,
                Ok(Some(_)) => final(self).cached_error() is None,
                Err(Error::IO(w)) => w.would_block() && !at_eof && final(r)@.len() == 0
                    && final(self).cached_error() is None,
                Err(e) => final(self).cached_error() == Some(e),
            },
    {
        self.has_eof = at_eof;
        proof { assert(*self == old(self).with_eof(at_eof)); }
        let raw = self.lex_bytes_raw(r);
        let ghost graw = raw;
        let res = match raw {
            Ok(t) => Ok(t),
            Err(LexError::EndOfBuffer) => Err(Error::would_block()),
            Err(LexError::NotWellFormed(e)) => Err(Error::NotWellFormed(e)),
            Err(LexError::InvalidUtf8Byte(b)) => Err(Error::InvalidUtf8Byte(b)),
            Err(LexError::RestrictedXml(w)) => Err(Error::RestrictedXml(w)),
        };
        proof {
            if old(self).err is None {
                assert(old(self).with_eof(at_eof).lexes(old(r)@, *self, r@, graw));
            }
        }
        res
    }

    /// Release all temporary buffers.
    pub fn release_temporaries(&mut self)
        requires old(self).wf(),
        ensures
            final(self).wf(),
            old(self).same_content(final(self)),
            final(self).spec_ctr() == old(self).spec_ctr(),
            final(self).cached_error() == old(self).cached_error(),
            final(self).at_end() == old(self).at_end(),
            final(self).options() == old(self).options(),
    {
        vec_shrink_to_fit(&mut self.scratchpad);
        vec_shrink_to_fit(&mut self.swap);
    }
}


/// A consumer of tokens.
pub trait Sink {
    /// The type of errors of the sink.
    type ErrorType;

    /// Take one token.
    fn token(&mut self, token: Token);
}

} // verus!
