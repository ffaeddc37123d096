//! The byte classes of the lexer accept every byte of the UTF-8 encoding of
//! the characters which may occur at the corresponding place.
use rxml::lexer::ranges::{
    is_nonchar_byte, maybe_attval_apos, maybe_attval_quot, maybe_cdata_content, maybe_name,
    maybe_text,
};
use rxml::validation::{select_name, select_nonchar};

fn in_ranges(ch: char, ranges: &[(u32, u32)]) -> bool {
    let cp = ch as u32;
    ranges.iter().any(|&(lo, hi)| lo <= cp && cp <= hi)
}

const TEXT_DELIMITED: &[(u32, u32)] = &[
    (0x09, 0x0a),
    (0x20, 0x25),
    (0x27, 0x3b),
    (0x3d, 0x5c),
    (0x5e, 0xd7ff),
    (0xe000, 0xfffd),
    (0x10000, 0x10ffff),
];

const ATT_APOS_DELIMITED: &[(u32, u32)] = &[
    (0x20, 0x25),
    (0x28, 0x3b),
    (0x3d, 0xd7ff),
    (0xe000, 0xfffd),
    (0x10000, 0x10ffff),
];

const ATT_QUOT_DELIMITED: &[(u32, u32)] = &[
    (0x20, 0x21),
    (0x23, 0x25),
    (0x27, 0x3b),
    (0x3d, 0xd7ff),
    (0xe000, 0xfffd),
    (0x10000, 0x10ffff),
];

const CDATASECTION_DELIMITED: &[(u32, u32)] = &[
    (0x09, 0x0a),
    (0x20, 0x5c),
    (0x5e, 0xd7ff),
    (0xe000, 0xfffd),
    (0x10000, 0x10ffff),
];

#[test]
fn test_nonchar_byte_range_is_superset_of_nonchar_codepoint_range() {
    let mut buf = [0u8; 4];
    for cp in 0x0..=0x10ffffu32 {
        if let Some(ch) = std::char::from_u32(cp) {
            let s = ch.encode_utf8(&mut buf[..]);
            if !select_nonchar(ch) {
                let mut ok = true;
                for b in s.as_bytes() {
                    if is_nonchar_byte(*b) {
                        ok = false;
                    }
                }
                if !ok {
                    panic!("byte selector rejects any byte of U+{:04x}", cp);
                }
            }
        }
    }
}

#[test]
fn test_text_delimited_byte_range_is_superset_of_text_delimited_codepoint_range() {
    let mut buf = [0u8; 4];
    for cp in 0x0..=0x10ffffu32 {
        if let Some(ch) = std::char::from_u32(cp) {
            let s = ch.encode_utf8(&mut buf[..]);
            for b in s.as_bytes() {
                if in_ranges(ch, TEXT_DELIMITED) && !maybe_text(*b) {
                    panic!("byte selector rejects byte 0x{:02x}, which is a utf-8 byte of U+{:04x}", *b, cp);
                }
            }
        }
    }
}

#[test]
fn test_cdata_delimited_byte_range_is_superset_of_codepoint_range() {
    let mut buf = [0u8; 4];
    for cp in 0x0..=0x10ffffu32 {
        if let Some(ch) = std::char::from_u32(cp) {
            let s = ch.encode_utf8(&mut buf[..]);
            for b in s.as_bytes() {
                if in_ranges(ch, CDATASECTION_DELIMITED) && !maybe_cdata_content(*b) {
                    panic!("byte selector rejects byte 0x{:02x}, which is a utf-8 byte of U+{:04x}", *b, cp);
                }
            }
        }
    }
}

#[test]
fn test_name_byte_range_is_superset_of_codepoint_range() {
    let mut buf = [0u8; 4];
    for cp in 0x0..=0x10ffffu32 {
        if let Some(ch) = std::char::from_u32(cp) {
            let s = ch.encode_utf8(&mut buf[..]);
            for b in s.as_bytes() {
                if select_name(ch) && !maybe_name(*b) {
                    panic!("byte selector rejects byte 0x{:02x}, which is a utf-8 byte of U+{:04x}", *b, cp);
                }
            }
        }
    }
}

#[test]
fn test_att_apos_delimited_range_is_superset_of_codepoint_range() {
    let mut buf = [0u8; 4];
    for cp in 0x0..=0x10ffffu32 {
        if let Some(ch) = std::char::from_u32(cp) {
            let s = ch.encode_utf8(&mut buf[..]);
            for b in s.as_bytes() {
                if in_ranges(ch, ATT_APOS_DELIMITED) && !maybe_attval_apos(*b) {
                    panic!("byte selector rejects byte 0x{:02x}, which is a utf-8 byte of U+{:04x}", *b, cp);
                }
            }
        }
    }
}

#[test]
fn test_att_quot_delimited_range_is_superset_of_codepoint_range() {
    let mut buf = [0u8; 4];
    for cp in 0x0..=0x10ffffu32 {
        if let Some(ch) = std::char::from_u32(cp) {
            let s = ch.encode_utf8(&mut buf[..]);
            for b in s.as_bytes() {
                if in_ranges(ch, ATT_QUOT_DELIMITED) && !maybe_attval_quot(*b) {
                    panic!("byte selector rejects byte 0x{:02x}, which is a utf-8 byte of U+{:04x}", *b, cp);
                }
            }
        }
    }
}
