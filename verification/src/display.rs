//! Human-readable descriptions of the errors.
use vstd::prelude::*;

use crate::error::{Error, XmlError};

verus! {

/// The lowercase hexadecimal digit for `d < 16`.
pub open spec fn hex_digit(d: nat) -> char {
    if d == 0 { '0' } else if d == 1 { '1' } else if d == 2 { '2' } else if d == 3 { '3' }
    else if d == 4 { '4' } else if d == 5 { '5' } else if d == 6 { '6' } else if d == 7 { '7' }
    else if d == 8 { '8' } else if d == 9 { '9' } else if d == 10 { 'a' } else if d == 11 { 'b' }
    else if d == 12 { 'c' } else if d == 13 { 'd' } else if d == 14 { 'e' } else { 'f' }
}

/// The lowercase hexadecimal notation of `n`, without leading zeros.
pub open spec fn hex_spec(n: nat) -> Seq<char>
    decreases n,
{
    if n < 16 {
        seq![hex_digit(n)]
    } else {
        hex_spec(n / 16) + seq![hex_digit(n % 16)]
    }
}

/// A run of `k` zero digits.
pub open spec fn zeros(k: nat) -> Seq<char> {
    Seq::new(k, |i: int| '0')
}

/// The lowercase hexadecimal notation of `n`, padded with zeros to at least
/// `width` digits.
pub open spec fn hex_padded_spec(n: nat, width: nat) -> Seq<char> {
    let h = hex_spec(n);
    if h.len() < width {
        zeros((width - h.len()) as nat) + h
    } else {
        h
    }
}

/// The given alternatives, separated by `", "`.
pub open spec fn join_spec(opts: Seq<&'static str>) -> Seq<char>
    decreases opts.len(),
{
    if opts.len() == 0 {
        Seq::empty()
    } else if opts.len() == 1 {
        opts[0]@
    } else {
        join_spec(opts.drop_last()) + ", "@ + opts.last()@
    }
}

/// The note on what was expected instead, where the error names any
/// alternatives.
pub open spec fn expected_suffix(opts: Option<&'static [&'static str]>) -> Seq<char> {
    match opts {
        Some(o) => if o@.len() == 0 {
            Seq::empty()
        } else if o@.len() == 1 {
            " (expected "@ + o@[0]@ + ")"@
        } else {
            " (expected "@ + "one of: "@ + join_spec(o@) + ")"@
        },
        None => Seq::empty(),
    }
}

/// The description of a grammar error.
pub open spec fn xml_error_message(e: XmlError) -> Seq<char> {
    match e {
        XmlError::InvalidEof(ctx) => "invalid eof "@ + ctx@,
        XmlError::UndeclaredEntity => "use of undeclared entity"@,
        XmlError::InvalidChar(ctx, cp, fromref) => if fromref {
            "character reference expanded to invalid codepoint U+"@ + hex_spec(cp as nat) + " "@ + ctx@
        } else {
            "invalid codepoint U+"@ + hex_spec(cp as nat) + " "@ + ctx@
        },
        XmlError::UnexpectedChar(ctx, ch, opts) => "U+"@ + hex_spec(ch as u32 as nat) + " not allowed "@
            + ctx@ + expected_suffix(opts),
        XmlError::UnexpectedByte(ctx, b, opts) => "0x"@ + hex_spec(b as nat) + " not allowed "@ + ctx@
            + expected_suffix(opts),
        XmlError::InvalidSyntax(msg) => "invalid syntax: "@ + msg@,
        XmlError::UnexpectedToken(ctx, tok, opts) => "unexpected "@ + tok@ + " token "@ + ctx@
            + expected_suffix(opts),
        XmlError::DuplicateAttribute => "duplicate attribute"@,
        XmlError::ElementMismatch => "start and end tag do not match"@,
        XmlError::MultiColonName(ctx) => "more than one colon "@ + ctx@ + " name"@,
        XmlError::EmptyNamePart(ctx) => "empty string on one side of the colon "@ + ctx@ + " name"@,
        XmlError::UndeclaredNamespacePrefix(ctx) => "use of undeclared namespace prefix "@ + ctx@
            + " name"@,
        XmlError::ReservedNamespacePrefix => "reserved namespace prefix"@,
        XmlError::ReservedNamespaceName => "reserved namespace URI"@,
        XmlError::InvalidLocalName(ctx) => "local name is invalid "@ + ctx@ + " name"@,
        XmlError::EmptyNamespaceUri => "namespace URI is empty"@,
    }
}

/// The description of an error; for an I/O error, the text which precedes
/// the description of the I/O error itself.
pub open spec fn error_message(e: Error) -> Seq<char> {
    match e {
        Error::IO(_) => "I/O error: "@,
        Error::InvalidUtf8Byte(b) => "invalid utf-8 byte: \\x"@ + hex_padded_spec(b as nat, 2),
        Error::InvalidChar(cp) => "invalid char: U+"@ + hex_padded_spec(cp as nat, 8),
        Error::NotWellFormed(xe) => "xml error: "@ + xml_error_message(xe),
        Error::NotNamespaceWellFormed(xe) => "xml error: "@ + xml_error_message(xe),
        Error::RestrictedXml(msg) => "restricted xml: "@ + msg@,
    }
}

fn hex_digit_str(d: u32) -> (r: &'static str)
    requires d < 16,
    ensures r@ == seq![hex_digit(d as nat)],
{
    if d == 0 { proof { reveal_strlit("0"); } "0" }
    else if d == 1 { proof { reveal_strlit("1"); } "1" }
    else if d == 2 { proof { reveal_strlit("2"); } "2" }
    else if d == 3 { proof { reveal_strlit("3"); } "3" }
    else if d == 4 { proof { reveal_strlit("4"); } "4" }
    else if d == 5 { proof { reveal_strlit("5"); } "5" }
    else if d == 6 { proof { reveal_strlit("6"); } "6" }
    else if d == 7 { proof { reveal_strlit("7"); } "7" }
    else if d == 8 { proof { reveal_strlit("8"); } "8" }
    else if d == 9 { proof { reveal_strlit("9"); } "9" }
    else if d == 10 { proof { reveal_strlit("a"); } "a" }
    else if d == 11 { proof { reveal_strlit("b"); } "b" }
    else if d == 12 { proof { reveal_strlit("c"); } "c" }
    else if d == 13 { proof { reveal_strlit("d"); } "d" }
    else if d == 14 { proof { reveal_strlit("e"); } "e" }
    else { proof { reveal_strlit("f"); } "f" }
}

/// The lowercase hexadecimal notation of `n`.
pub fn hex_string(n: u32) -> (r: String)
    ensures r@ == hex_spec(n as nat),
    decreases n,
{
    if n < 16 {
        hex_digit_str(n).to_owned()
    } else {
        let mut s = hex_string(n / 16);
        s.append(hex_digit_str(n % 16));
        s
    }
}

/// The lowercase hexadecimal notation of `n`, padded with zeros to at least
/// `width` digits.
pub fn hex_padded(n: u32, width: usize) -> (r: String)
    ensures r@ == hex_padded_spec(n as nat, width as nat),
{
    let h = hex_string(n);
    let len = h.as_str().unicode_len();
    let mut out = String::new();
    if len < width {
        let mut k: usize = 0;
        while k < width - len
            invariant
                len < width,
                k <= width - len,
                out@ == zeros(k as nat),
            decreases width - len - k,
        {
            proof { reveal_strlit("0"); }
            out.append("0");
            k = k + 1;
            assert(out@ =~= zeros(k as nat));
        }
    }
    out.append(h.as_str());
    out
}

fn push_expected(out: &mut String, opts: Option<&'static [&'static str]>)
    ensures final(out)@ == old(out)@ + expected_suffix(opts),
{
    match opts {
        None => {
            assert(old(out)@ + expected_suffix(opts) =~= old(out)@);
        },
        Some(o) => {
            if o.len() == 0 {
                assert(old(out)@ + expected_suffix(opts) =~= old(out)@);
            } else if o.len() == 1 {
                out.append(" (expected ");
                out.append(o[0]);
                out.append(")");
                assert(final(out)@ =~= old(out)@ + expected_suffix(opts)) by {
                    assert(final(out)@ == old(out)@ + " (expected "@ + o@[0]@ + ")"@);
                };
            } else {
                out.append(" (expected ");
                out.append("one of: ");
                let ghost start = out@;
                let mut i: usize = 0;
                while i < o.len()
                    invariant
                        o@.len() >= 2,
                        i <= o@.len(),
                        out@ == start + join_spec(o@.subrange(0, i as int)),
                    decreases o@.len() - i,
                {
                    let ghost before = out@;
                    if i > 0 {
                        out.append(", ");
                    }
                    out.append(o[i]);
                    proof {
                        let s = o@.subrange(0, i + 1);
                        assert(s.drop_last() =~= o@.subrange(0, i as int));
                        assert(s.last() == o@[i as int]);
                        if i == 0 {
                            assert(o@.subrange(0, 0) =~= Seq::<&'static str>::empty());
                            assert(join_spec(o@.subrange(0, 0)) =~= Seq::<char>::empty());
                            assert(join_spec(s) == s[0]@);
                            assert(out@ =~= start + join_spec(s));
                        } else {
                            assert(join_spec(s) == join_spec(s.drop_last()) + ", "@ + s.last()@);
                            assert(out@ =~= start + join_spec(s));
                        }
                    }
                    i = i + 1;
                }
                assert(o@.subrange(0, o@.len() as int) =~= o@);
                out.append(")");
                assert(final(out)@ =~= old(out)@ + expected_suffix(opts));
            }
        },
    }
}

fn concat2(a: &str, b: &str) -> (r: String)
    ensures r@ == a@ + b@,
{
    let mut s = a.to_owned();
    s.append(b);
    s
}

fn concat3(a: &str, b: &str, c: &str) -> (r: String)
    ensures r@ == a@ + b@ + c@,
{
    let mut s = a.to_owned();
    s.append(b);
    s.append(c);
    s
}

impl XmlError {
    /// A description of the error.
    pub fn message(&self) -> (r: String)
        ensures r@ == xml_error_message(*self),
    {
        match self {
            XmlError::InvalidEof(ctx) => concat2("invalid eof ", ctx),
            XmlError::UndeclaredEntity => "use of undeclared entity".to_owned(),
            XmlError::InvalidChar(ctx, cp, fromref) => {
                let mut s = if *fromref {
                    "character reference expanded to invalid codepoint U+".to_owned()
                } else {
                    "invalid codepoint U+".to_owned()
                };
                s.append(hex_string(*cp).as_str());
                s.append(" ");
                s.append(ctx);
                s
            },
            XmlError::UnexpectedChar(ctx, ch, opts) => {
                let mut s = "U+".to_owned();
                s.append(hex_string(*ch as u32).as_str());
                s.append(" not allowed ");
                s.append(ctx);
                push_expected(&mut s, *opts);
                s
            },
            XmlError::UnexpectedByte(ctx, b, opts) => {
                let mut s = "0x".to_owned();
                s.append(hex_string(*b as u32).as_str());
                s.append(" not allowed ");
                s.append(ctx);
                push_expected(&mut s, *opts);
                s
            },
            XmlError::InvalidSyntax(msg) => concat2("invalid syntax: ", msg),
            XmlError::UnexpectedToken(ctx, tok, opts) => {
                let mut s = concat3("unexpected ", tok, " token ");
                s.append(ctx);
                push_expected(&mut s, *opts);
                s
            },
            XmlError::DuplicateAttribute => "duplicate attribute".to_owned(),
            XmlError::ElementMismatch => "start and end tag do not match".to_owned(),
            XmlError::MultiColonName(ctx) => concat3("more than one colon ", ctx, " name"),
            XmlError::EmptyNamePart(ctx) => concat3("empty string on one side of the colon ", ctx, " name"),
            XmlError::UndeclaredNamespacePrefix(ctx) => concat3(
                "use of undeclared namespace prefix ",
                ctx,
                " name",
            ),
            XmlError::ReservedNamespacePrefix => "reserved namespace prefix".to_owned(),
            XmlError::ReservedNamespaceName => "reserved namespace URI".to_owned(),
            XmlError::InvalidLocalName(ctx) => concat3("local name is invalid ", ctx, " name"),
            XmlError::EmptyNamespaceUri => "namespace URI is empty".to_owned(),
        }
    }
}

/// Formats an [`std::io::Error`] with its `Display` impl
/// (`ToString::to_string`); nothing is claimed of the text.
#[verifier::external_body]
fn io_error_text(e: &std::io::Error) -> String {
    e.to_string()
}

impl Error {
    /// A description of the error. An I/O error is described by the text
    /// of [`error_message`] followed by that of the I/O error itself.
    pub fn message(&self) -> (r: String)
        ensures
            !(*self is IO) ==> r@ == error_message(*self),
            *self is IO ==> error_message(*self).is_prefix_of(r@),
    {
        match self {
            Error::IO(e) => {
                let mut s = "I/O error: ".to_owned();
                s.append(io_error_text(e.as_io_error()).as_str());
                s
            },
            Error::InvalidUtf8Byte(b) => {
                let mut s = "invalid utf-8 byte: \\x".to_owned();
                s.append(hex_padded(*b as u32, 2).as_str());
                s
            },
            Error::InvalidChar(cp) => {
                let mut s = "invalid char: U+".to_owned();
                s.append(hex_padded(*cp, 8).as_str());
                s
            },
            Error::NotWellFormed(xe) => {
                let mut s = "xml error: ".to_owned();
                s.append(xe.message().as_str());
                s
            },
            Error::NotNamespaceWellFormed(xe) => {
                let mut s = "xml error: ".to_owned();
                s.append(xe.message().as_str());
                s
            },
            Error::RestrictedXml(msg) => concat2("restricted xml: ", msg),
        }
    }
}

} // verus!
