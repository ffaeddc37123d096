//! Validation of XML 1.0 strings: `Name`, `NCName` and character data.
use vstd::prelude::*;

verus! {

/// Whether `c` may start an XML 1.0 `Name` (production `NameStartChar`).
pub open spec fn is_name_start_char(c: char) -> bool {
    let v = c as u32;
    ||| v == 0x3a
    ||| 0x41 <= v <= 0x5a
    ||| v == 0x5f
    ||| 0x61 <= v <= 0x7a
    ||| 0xc0 <= v <= 0xd6
    ||| 0xd8 <= v <= 0xf6
    ||| 0xf8 <= v <= 0x2ff
    ||| 0x370 <= v <= 0x37d
    ||| 0x37f <= v <= 0x1fff
    ||| 0x200c <= v <= 0x200d
    ||| 0x2070 <= v <= 0x218f
    ||| 0x2c00 <= v <= 0x2fef
    ||| 0x3001 <= v <= 0xd7ff
    ||| 0xf900 <= v <= 0xfdcf
    ||| 0xfdf0 <= v <= 0xfffd
    ||| 0x10000 <= v <= 0xeffff
}

/// Whether `c` may occur in an XML 1.0 `Name` (production `NameChar`).
pub open spec fn is_name_char(c: char) -> bool {
    let v = c as u32;
    ||| is_name_start_char(c)
    ||| v == 0x2d
    ||| v == 0x2e
    ||| 0x30 <= v <= 0x39
    ||| v == 0xb7
    ||| 0x300 <= v <= 0x36f
    ||| 0x203f <= v <= 0x2040
}

/// Every character which may start a name may occur in one, and the
/// characters which may occur in a name but not start it (production
/// `NameChar` of XML 1.0) are `-`, `.`, the digits `0`-`9`, U+00B7 and the
/// ranges U+0300 to U+036F and U+203F to U+2040.
pub proof fn law_name_chars(c: char)
    ensures
        is_name_start_char(c) ==> is_name_char(c),
        (is_name_char(c) && !is_name_start_char(c)) <==> ({
            let v = c as u32;
            ||| v == 0x2d
            ||| v == 0x2e
            ||| 0x30 <= v <= 0x39
            ||| v == 0xb7
            ||| 0x300 <= v <= 0x36f
            ||| 0x203f <= v <= 0x2040
        }),
{
}

/// Two names joined by any name character, such as `-` or `.`, form a
/// name (`maven.compiler.source`).
pub proof fn law_names_joined_by_a_name_char(a: Seq<char>, c: char, b: Seq<char>)
    requires
        is_valid_name(a),
        is_valid_name(b),
        is_name_char(c),
    ensures
        is_valid_name(a + seq![c] + b),
{
    let s = a + seq![c] + b;
    assert forall|i: int| 0 <= i < s.len() implies #[trigger] name_pos_ok(s, i) by {
        if i < a.len() {
            assert(s[i] == a[i]);
            assert(name_pos_ok(a, i));
        } else if i == a.len() {
            assert(s[i] == c);
        } else {
            let j = i - a.len() - 1;
            assert(s[i] == b[j]);
            assert(name_pos_ok(b, j));
        }
    }
}

/// Whether `c` is an XML 1.0 `Char`.
pub open spec fn is_xml_char(c: char) -> bool {
    let v = c as u32;
    ||| v == 0x9
    ||| v == 0xa
    ||| v == 0xd
    ||| 0x20 <= v <= 0xd7ff
    ||| 0xe000 <= v <= 0xfffd
    ||| 0x10000 <= v <= 0x10ffff
}

/// Whether the character at index `i` of `s` is acceptable at that position
/// of a `Name`.
pub open spec fn name_pos_ok(s: Seq<char>, i: int) -> bool {
    if i == 0 { is_name_start_char(s[i]) } else { is_name_char(s[i]) }
}

/// Whether the character at index `i` of `s` is acceptable at that position
/// of an `NCName`.
pub open spec fn ncname_pos_ok(s: Seq<char>, i: int) -> bool {
    name_pos_ok(s, i) && s[i] != ':'
}

/// `s` conforms to the `Name` production of XML 1.0.
pub open spec fn is_valid_name(s: Seq<char>) -> bool {
    s.len() > 0 && forall|i: int| 0 <= i < s.len() ==> #[trigger] name_pos_ok(s, i)
}

/// `s` conforms to the `NCName` production of Namespaces in XML 1.0.
pub open spec fn is_valid_ncname(s: Seq<char>) -> bool {
    s.len() > 0 && forall|i: int| 0 <= i < s.len() ==> #[trigger] ncname_pos_ok(s, i)
}

/// `s` consists of XML 1.0 `Char`s only.
pub open spec fn is_valid_cdata(s: Seq<char>) -> bool {
    forall|i: int| 0 <= i < s.len() ==> #[trigger] is_xml_char(s[i])
}

/// Error condition from validating an XML string.
#[derive(Debug, Clone, Copy, PartialEq, Eq)]
pub enum Error {
    /// A Name or NCName was empty.
    EmptyName,
    /// An invalid character was encountered; it is carried as data.
    InvalidChar(char),
}

/// `k` is the first position of `s` at which `s` fails to be a `Name`.
pub open spec fn first_bad_name_pos(s: Seq<char>, k: int) -> bool {
    &&& 0 <= k < s.len()
    &&& !name_pos_ok(s, k)
    &&& forall|j: int| 0 <= j < k ==> #[trigger] name_pos_ok(s, j)
}

/// `k` is the first position of `s` at which `s` fails to be an `NCName`.
pub open spec fn first_bad_ncname_pos(s: Seq<char>, k: int) -> bool {
    &&& 0 <= k < s.len()
    &&& !ncname_pos_ok(s, k)
    &&& forall|j: int| 0 <= j < k ==> #[trigger] ncname_pos_ok(s, j)
}

/// `k` is the first position of `s` which holds no XML `Char`.
pub open spec fn first_nonchar_pos(s: Seq<char>, k: int) -> bool {
    &&& 0 <= k < s.len()
    &&& !is_xml_char(s[k])
    &&& forall|j: int| 0 <= j < k ==> #[trigger] is_xml_char(s[j])
}

/// Executable check for `NameStartChar`.
pub fn select_name_start(c: char) -> (r: bool)
    ensures r == is_name_start_char(c),
{
    let v = c as u32;
    v == 0x3a || (0x41 <= v && v <= 0x5a) || v == 0x5f || (0x61 <= v && v <= 0x7a)
        || (0xc0 <= v && v <= 0xd6) || (0xd8 <= v && v <= 0xf6) || (0xf8 <= v && v <= 0x2ff)
        || (0x370 <= v && v <= 0x37d) || (0x37f <= v && v <= 0x1fff)
        || (0x200c <= v && v <= 0x200d) || (0x2070 <= v && v <= 0x218f)
        || (0x2c00 <= v && v <= 0x2fef) || (0x3001 <= v && v <= 0xd7ff)
        || (0xf900 <= v && v <= 0xfdcf) || (0xfdf0 <= v && v <= 0xfffd)
        || (0x10000 <= v && v <= 0xeffff)
}

/// Executable check for `NameChar`.
pub fn select_name(c: char) -> (r: bool)
    ensures r == is_name_char(c),
{
    let v = c as u32;
    select_name_start(c) || v == 0x2d || v == 0x2e || (0x30 <= v && v <= 0x39) || v == 0xb7
        || (0x300 <= v && v <= 0x36f) || (0x203f <= v && v <= 0x2040)
}

/// Executable check for `Char`; `true` for characters which are *not* XML
/// characters.
pub fn select_nonchar(c: char) -> (r: bool)
    ensures r == !is_xml_char(c),
{
    let v = c as u32;
    !(v == 0x9 || v == 0xa || v == 0xd || (0x20 <= v && v <= 0xd7ff)
        || (0xe000 <= v && v <= 0xfffd) || (0x10000 <= v && v <= 0x10ffff))
}

/// Check whether a str is a valid XML 1.0 Name.
pub fn validate_name(s: &str) -> (r: Result<(), Error>)
    ensures
        r is Ok <==> is_valid_name(s@),
        r == Err::<(), Error>(Error::EmptyName) <==> s@.len() == 0,
        r matches Err(Error::InvalidChar(c)) ==> exists|k: int|
            #[trigger] first_bad_name_pos(s@, k) && c == s@[k],
        r matches Err(e) ==> e == name_error(s@),
{
    let mut first = true;
    for c in it: s.chars()
        invariant
            it.seq() == s@,
            first <==> it.index() == 0,
            forall|j: int| 0 <= j < it.index() ==> #[trigger] name_pos_ok(s@, j),
    {
        let ok = if first { select_name_start(c) } else { select_name(c) };
        if !ok {
            assert(first_bad_name_pos(s@, it.index()));
            proof {
                let k = choose|k: int| first_bad_name_pos(s@, k);
                lemma_first_bad_name_pos_unique(s@, k, it.index());
            }
            return Err(Error::InvalidChar(c));
        }
        first = false;
    }
    if first {
        return Err(Error::EmptyName);
    }
    Ok(())
}

/// Check whether a str is a valid XML 1.0 Name, without colons.
pub fn validate_ncname(s: &str) -> (r: Result<(), Error>)
    ensures
        r is Ok <==> is_valid_ncname(s@),
        r == Err::<(), Error>(Error::EmptyName) <==> s@.len() == 0,
        r matches Err(Error::InvalidChar(c)) ==> exists|k: int|
            #[trigger] first_bad_ncname_pos(s@, k) && c == s@[k],
        r matches Err(e) ==> e == ncname_error(s@),
{
    let mut first = true;
    for c in it: s.chars()
        invariant
            it.seq() == s@,
            first <==> it.index() == 0,
            forall|j: int| 0 <= j < it.index() ==> #[trigger] ncname_pos_ok(s@, j),
    {
        let ok = if first { select_name_start(c) } else { select_name(c) };
        if !ok || c == ':' {
            assert(first_bad_ncname_pos(s@, it.index()));
            proof {
                let k = choose|k: int| first_bad_ncname_pos(s@, k);
                lemma_first_bad_ncname_pos_unique(s@, k, it.index());
            }
            return Err(Error::InvalidChar(c));
        }
        first = false;
    }
    if first {
        return Err(Error::EmptyName);
    }
    Ok(())
}

/// Check whether a str is valid XML 1.0 CData.
pub fn validate_cdata(s: &str) -> (r: Result<(), Error>)
    ensures
        r is Ok <==> is_valid_cdata(s@),
        r matches Err(e) ==> e matches Error::InvalidChar(c) && exists|k: int|
            #[trigger] first_nonchar_pos(s@, k) && c == s@[k],
        r matches Err(e) ==> e == cdata_error(s@),
{
    for c in it: s.chars()
        invariant
            it.seq() == s@,
            forall|j: int| 0 <= j < it.index() ==> #[trigger] is_xml_char(s@[j]),
    {
        if select_nonchar(c) {
            assert(first_nonchar_pos(s@, it.index()));
            proof {
                let k = choose|k: int| first_nonchar_pos(s@, k);
                lemma_first_nonchar_pos_unique(s@, k, it.index());
            }
            return Err(Error::InvalidChar(c));
        }
    }
    Ok(())
}

/// The error [`validate_name`] reports for an invalid `s`.
pub open spec fn name_error(s: Seq<char>) -> Error {
    if s.len() == 0 {
        Error::EmptyName
    } else {
        Error::InvalidChar(s[choose|k: int| first_bad_name_pos(s, k)])
    }
}

/// The error [`validate_ncname`] reports for an invalid `s`.
pub open spec fn ncname_error(s: Seq<char>) -> Error {
    if s.len() == 0 {
        Error::EmptyName
    } else {
        Error::InvalidChar(s[choose|k: int| first_bad_ncname_pos(s, k)])
    }
}

/// The error [`validate_cdata`] reports for an invalid `s`.
pub open spec fn cdata_error(s: Seq<char>) -> Error {
    Error::InvalidChar(s[choose|k: int| first_nonchar_pos(s, k)])
}

/// There is at most one first failing position.
pub proof fn lemma_first_bad_name_pos_unique(s: Seq<char>, k1: int, k2: int)
    requires first_bad_name_pos(s, k1), first_bad_name_pos(s, k2),
    ensures k1 == k2,
{
    if k1 < k2 { assert(name_pos_ok(s, k1)); }
    if k2 < k1 { assert(name_pos_ok(s, k2)); }
}

/// There is at most one first failing position.
pub proof fn lemma_first_bad_ncname_pos_unique(s: Seq<char>, k1: int, k2: int)
    requires first_bad_ncname_pos(s, k1), first_bad_ncname_pos(s, k2),
    ensures k1 == k2,
{
    if k1 < k2 { assert(ncname_pos_ok(s, k1)); }
    if k2 < k1 { assert(ncname_pos_ok(s, k2)); }
}

/// There is at most one first failing position.
pub proof fn lemma_first_nonchar_pos_unique(s: Seq<char>, k1: int, k2: int)
    requires first_nonchar_pos(s, k1), first_nonchar_pos(s, k2),
    ensures k1 == k2,
{
    if k1 < k2 { assert(is_xml_char(s[k1])); }
    if k2 < k1 { assert(is_xml_char(s[k2])); }
}

} // verus!
