//! Byte classes used by the lexer.
use vstd::prelude::*;

verus! {

/// A selector of bytes.
pub trait ByteSelect {
    /// The set of bytes this selector accepts.
    spec fn selects(&self, b: u8) -> bool;

    /// Whether the byte is accepted.
    fn select(&self, b: u8) -> (r: bool)
        ensures r == self.selects(b);
}

/// Selector which accepts every byte.
pub struct AnyByte();

impl ByteSelect for AnyByte {
    open spec fn selects(&self, b: u8) -> bool {
        true
    }

    fn select(&self, _b: u8) -> (r: bool) {
        true
    }
}

impl ByteSelect for u8 {
    open spec fn selects(&self, b: u8) -> bool {
        *self == b
    }

    fn select(&self, b: u8) -> (r: bool) {
        *self == b
    }
}

/// XML whitespace.
pub open spec fn spec_is_space(b: u8) -> bool {
    b == 0x20 || b == 0x0a || b == 0x09 || b == 0x0d
}

/// Bytes which end a run of character data: `\r` (line ending
/// normalization), `&` (references), `<` (markup), `]` (possible `]]>`)
/// and the control characters other than tab and line feed.
pub open spec fn spec_is_text_delimiter(b: u8) -> bool {
    b == 0x0d || b == 0x26 || b == 0x3c || b == 0x5d || b < 0x09 || (b > 0x0a && b < 0x20)
}

/// Bytes which end a run inside a CDATA section.
pub open spec fn spec_is_cdata_content_delimiter(b: u8) -> bool {
    b == 0x0d || b == 0x5d || b < 0x09 || (b > 0x0a && b < 0x20)
}

/// Bytes which cannot be part of a name: everything but `:`, `-`, `.`,
/// `_`, ASCII letters and digits and non-ASCII bytes.
pub open spec fn spec_is_name_delimiter(b: u8) -> bool {
    !(b == 0x3a || b == 0x2d || b == 0x2e || b == 0x5f || (0x61 <= b <= 0x7a) || (0x30 <= b
        <= 0x39) || (0x41 <= b <= 0x5a) || b >= 0x80)
}

/// Bytes which may start a name: `:`, `_`, ASCII letters and non-ASCII
/// bytes.
pub open spec fn spec_is_namestart_byte(b: u8) -> bool {
    b == 0x3a || b == 0x5f || (0x61 <= b <= 0x7a) || (0x41 <= b <= 0x5a) || b >= 0x80
}

/// Bytes which end a run inside an attribute value delimited by `'`.
pub open spec fn spec_is_attval_apos_delimiter(b: u8) -> bool {
    b < 0x20 || b == 0x26 || b == 0x27 || b == 0x3c
}

/// Bytes which end a run inside an attribute value delimited by `"`.
pub open spec fn spec_is_attval_quot_delimiter(b: u8) -> bool {
    b < 0x20 || b == 0x26 || b == 0x22 || b == 0x3c
}

/// Bytes which can never be part of an XML `Char`.
pub open spec fn spec_is_nonchar_byte(b: u8) -> bool {
    b <= 0x08 || b == 0x0b || b == 0x0c || (0x0e <= b <= 0x1f)
}

/// Decimal digits.
pub open spec fn spec_is_decimal_digit(b: u8) -> bool {
    0x30 <= b <= 0x39
}

/// Hexadecimal digits.
pub open spec fn spec_is_hexadecimal_digit(b: u8) -> bool {
    (0x30 <= b <= 0x39) || (0x61 <= b <= 0x66) || (0x41 <= b <= 0x46)
}

/// XML whitespace.
pub fn is_space(b: u8) -> (r: bool)
    ensures r == spec_is_space(b),
{
    b == 0x20 || b == 0x0a || b == 0x09 || b == 0x0d
}

fn is_text_delimiter(b: u8) -> (r: bool)
    ensures r == spec_is_text_delimiter(b),
{
    b == 0x0d || b == 0x26 || b == 0x3c || b == 0x5d || b < 0x09 || (b > 0x0a && b < 0x20)
}

/// Bytes which may be part of character data without special treatment.
pub fn maybe_text(b: u8) -> (r: bool)
    ensures r == !spec_is_text_delimiter(b),
{
    !is_text_delimiter(b)
}

fn is_cdata_content_delimiter(b: u8) -> (r: bool)
    ensures r == spec_is_cdata_content_delimiter(b),
{
    b == 0x0d || b == 0x5d || b < 0x09 || (b > 0x0a && b < 0x20)
}

/// Bytes which may be part of a CDATA section without special treatment.
pub fn maybe_cdata_content(b: u8) -> (r: bool)
    ensures r == !spec_is_cdata_content_delimiter(b),
{
    !is_cdata_content_delimiter(b)
}

fn is_name_delimiter(b: u8) -> (r: bool)
    ensures r == spec_is_name_delimiter(b),
{
    if b == 0x3a || b == 0x2d || b == 0x2e || b == 0x5f {
        return false;
    }
    if b >= 0x61 && b <= 0x7a {
        return false;
    }
    if b >= 0x30 && b <= 0x39 {
        return false;
    }
    if b >= 0x41 && b <= 0x5a {
        return false;
    }
    if b >= 0x80 {
        return false;
    }
    true
}

/// Bytes which may be part of a name.
pub fn maybe_name(b: u8) -> (r: bool)
    ensures r == !spec_is_name_delimiter(b),
{
    !is_name_delimiter(b)
}

/// Bytes which may start a name.
pub fn is_namestart_byte(b: u8) -> (r: bool)
    ensures r == spec_is_namestart_byte(b),
{
    b == 0x3a || b == 0x5f || (b >= 0x61 && b <= 0x7a) || (b >= 0x41 && b <= 0x5a) || b >= 0x80
}

fn is_attval_apos_delimiter(b: u8) -> (r: bool)
    ensures r == spec_is_attval_apos_delimiter(b),
{
    b < 0x20 || b == 0x26 || b == 0x27 || b == 0x3c
}

/// Bytes which may be part of a `'`-delimited attribute value without
/// special treatment.
pub fn maybe_attval_apos(b: u8) -> (r: bool)
    ensures r == !spec_is_attval_apos_delimiter(b),
{
    !is_attval_apos_delimiter(b)
}

fn is_attval_quot_delimiter(b: u8) -> (r: bool)
    ensures r == spec_is_attval_quot_delimiter(b),
{
    b < 0x20 || b == 0x26 || b == 0x22 || b == 0x3c
}

/// Bytes which may be part of a `"`-delimited attribute value without
/// special treatment.
pub fn maybe_attval_quot(b: u8) -> (r: bool)
    ensures r == !spec_is_attval_quot_delimiter(b),
{
    !is_attval_quot_delimiter(b)
}

/// Bytes which can never be part of an XML `Char`.
pub fn is_nonchar_byte(b: u8) -> (r: bool)
    ensures r == spec_is_nonchar_byte(b),
{
    b <= 0x08 || b == 0x0b || b == 0x0c || (b >= 0x0e && b <= 0x1f)
}

/// Valid XML decimal characters (for character references).
pub fn is_decimal_digit(b: u8) -> (r: bool)
    ensures r == spec_is_decimal_digit(b),
{
    b >= 0x30 && b <= 0x39
}

/// Valid XML hexadecimal characters (for character references).
pub fn is_hexadecimal_digit(b: u8) -> (r: bool)
    ensures r == spec_is_hexadecimal_digit(b),
{
    (b >= 0x30 && b <= 0x39) || (b >= 0x61 && b <= 0x66) || (b >= 0x41 && b <= 0x46)
}

/// The byte classes the lexer reads runs of.
#[derive(Debug, Clone, Copy, PartialEq, Eq)]
pub enum ByteClass {
    /// Character data outside CDATA sections.
    Text,
    /// Contents of a CDATA section.
    CDataSection,
    /// Names.
    Name,
    /// Attribute value delimited by `'`.
    AttValApos,
    /// Attribute value delimited by `"`.
    AttValQuot,
    /// Whitespace.
    Space,
    /// Decimal digits.
    DecimalDigit,
    /// Hexadecimal digits.
    HexadecimalDigit,
}

impl ByteSelect for ByteClass {
    open spec fn selects(&self, b: u8) -> bool {
        match *self {
            ByteClass::Text => !spec_is_text_delimiter(b),
            ByteClass::CDataSection => !spec_is_cdata_content_delimiter(b),
            ByteClass::Name => !spec_is_name_delimiter(b),
            ByteClass::AttValApos => !spec_is_attval_apos_delimiter(b),
            ByteClass::AttValQuot => !spec_is_attval_quot_delimiter(b),
            ByteClass::Space => spec_is_space(b),
            ByteClass::DecimalDigit => spec_is_decimal_digit(b),
            ByteClass::HexadecimalDigit => spec_is_hexadecimal_digit(b),
        }
    }

    fn select(&self, b: u8) -> (r: bool) {
        match *self {
            ByteClass::Text => maybe_text(b),
            ByteClass::CDataSection => maybe_cdata_content(b),
            ByteClass::Name => maybe_name(b),
            ByteClass::AttValApos => maybe_attval_apos(b),
            ByteClass::AttValQuot => maybe_attval_quot(b),
            ByteClass::Space => is_space(b),
            ByteClass::DecimalDigit => is_decimal_digit(b),
            ByteClass::HexadecimalDigit => is_hexadecimal_digit(b),
        }
    }
}

} // verus!
