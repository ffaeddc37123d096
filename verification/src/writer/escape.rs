//! Escaping of text and attribute values.
use vstd::prelude::*;

verus! {

/// The bytes which stand for the byte `b` in text (`attr` false) or in an
/// attribute value delimited by double quotes (`attr` true).
pub open spec fn escape_byte(b: u8, attr: bool) -> Seq<u8> {
    if b == 0x3c {
        seq![0x26u8, 0x6c, 0x74, 0x3b]
    } else if b == 0x3e {
        seq![0x26u8, 0x67, 0x74, 0x3b]
    } else if b == 0x26 {
        seq![0x26u8, 0x61, 0x6d, 0x70, 0x3b]
    } else if b == 0x0d {
        seq![0x26u8, 0x23, 0x78, 0x64, 0x3b]
    } else if attr && b == 0x22 {
        seq![0x26u8, 0x23, 0x33, 0x34, 0x3b]
    } else if attr && b == 0x27 {
        seq![0x26u8, 0x23, 0x33, 0x39, 0x3b]
    } else if attr && b == 0x0a {
        seq![0x26u8, 0x23, 0x78, 0x61, 0x3b]
    } else if attr && b == 0x09 {
        seq![0x26u8, 0x23, 0x78, 0x39, 0x3b]
    } else {
        seq![b]
    }
}

/// The escaped form of `data`: each byte replaced by [`escape_byte`].
pub open spec fn escape_spec(data: Seq<u8>, attr: bool) -> Seq<u8>
    decreases data.len(),
{
    if data.len() == 0 {
        seq![]
    } else {
        escape_spec(data.drop_last(), attr) + escape_byte(data.last(), attr)
    }
}

/// Append `bytes` to `out`.
pub fn put_bytes(out: &mut Vec<u8>, bytes: &[u8])
    ensures final(out)@ == old(out)@ + bytes@,
{
    let mut i: usize = 0;
    while i < bytes.len()
        invariant
            i <= bytes.len(),
            out@ == old(out)@ + bytes@.subrange(0, i as int),
        decreases bytes.len() - i,
    {
        out.push(bytes[i]);
        assert(bytes@.subrange(0, i + 1) =~= bytes@.subrange(0, i as int).push(bytes@[i as int]));
        i = i + 1;
    }
    assert(bytes@.subrange(0, bytes@.len() as int) =~= bytes@);
}

fn put_escaped_byte(out: &mut Vec<u8>, b: u8, attr: bool)
    ensures final(out)@ == old(out)@ + escape_byte(b, attr),
{
    if b == 0x3c {
        put_bytes(out, &[0x26u8, 0x6c, 0x74, 0x3b]);
    } else if b == 0x3e {
        put_bytes(out, &[0x26u8, 0x67, 0x74, 0x3b]);
    } else if b == 0x26 {
        put_bytes(out, &[0x26u8, 0x61, 0x6d, 0x70, 0x3b]);
    } else if b == 0x0d {
        put_bytes(out, &[0x26u8, 0x23, 0x78, 0x64, 0x3b]);
    } else if attr && b == 0x22 {
        put_bytes(out, &[0x26u8, 0x23, 0x33, 0x34, 0x3b]);
    } else if attr && b == 0x27 {
        put_bytes(out, &[0x26u8, 0x23, 0x33, 0x39, 0x3b]);
    } else if attr && b == 0x0a {
        put_bytes(out, &[0x26u8, 0x23, 0x78, 0x61, 0x3b]);
    } else if attr && b == 0x09 {
        put_bytes(out, &[0x26u8, 0x23, 0x78, 0x39, 0x3b]);
    } else {
        out.push(b);
    }
    assert(out@ =~= old(out)@ + escape_byte(b, attr));
}

/// Append the escaped form of `data` to `out`: in text (`attr` false) the
/// bytes `<`, `>`, `&` and carriage return are replaced by references; in
/// attribute values also both quotes, line feed and tab.
pub fn escape(out: &mut Vec<u8>, data: &[u8], attr: bool)
    ensures final(out)@ == old(out)@ + escape_spec(data@, attr),
{
    let mut i: usize = 0;
    while i < data.len()
        invariant
            i <= data.len(),
            out@ == old(out)@ + escape_spec(data@.subrange(0, i as int), attr),
        decreases data.len() - i,
    {
        let ghost before = out@;
        put_escaped_byte(out, data[i], attr);
        assert(data@.subrange(0, i + 1).drop_last() =~= data@.subrange(0, i as int));
        assert(out@ =~= old(out)@ + escape_spec(data@.subrange(0, i + 1), attr));
        i = i + 1;
    }
    assert(data@.subrange(0, data@.len() as int) =~= data@);
}

/// The bytes which never occur in escaped text: `<`, `>` and carriage
/// return stand only in references; in attribute values also both quotes,
/// line feed and tab.
pub open spec fn escaped_away(b: u8, attr: bool) -> bool {
    b == 0x3c || b == 0x3e || b == 0x0d || (attr && (b == 0x22 || b == 0x27 || b == 0x0a || b == 0x09))
}

/// Escaped text holds none of the bytes which would end or break its
/// context: no `<` (which would start markup), no `>`, no carriage return
/// (which a parser would fold), and in attribute values no quote (which
/// would end the value) and no line feed or tab (which a parser would
/// normalize to spaces).
pub proof fn law_escaped_has_no_specials(data: Seq<u8>, attr: bool)
    ensures
        forall|i: int| 0 <= i < escape_spec(data, attr).len() ==> !escaped_away(#[trigger] escape_spec(data, attr)[i], attr),
    decreases data.len(),
{
    if data.len() > 0 {
        law_escaped_has_no_specials(data.drop_last(), attr);
        let prev = escape_spec(data.drop_last(), attr);
        let last = escape_byte(data.last(), attr);
        assert forall|i: int| 0 <= i < escape_spec(data, attr).len() implies !escaped_away(#[trigger] escape_spec(data, attr)[i], attr) by {
            if i < prev.len() {
                assert(escape_spec(data, attr)[i] == prev[i]);
            } else {
                assert(escape_spec(data, attr)[i] == last[i - prev.len()]);
            }
        }
    }
}

/// Whether `s` begins with `p`.
pub open spec fn starts_with(s: Seq<u8>, p: Seq<u8>) -> bool {
    p.len() <= s.len() && s.take(p.len() as int) == p
}

/// The bytes which references in escaped data stand for, where a
/// reference which escaping writes begins `s`: `&lt;`, `&gt;`, `&amp;`,
/// `&#xd;`, `&#34;`, `&#39;`, `&#xa;`, `&#x9;`. Every other byte stands
/// for itself.
pub open spec fn unescape_spec(s: Seq<u8>) -> Seq<u8>
    decreases s.len(),
{
    if s.len() == 0 {
        seq![]
    } else if starts_with(s, escape_byte(0x3c, true)) {
        seq![0x3cu8] + unescape_spec(s.skip(4))
    } else if starts_with(s, escape_byte(0x3e, true)) {
        seq![0x3eu8] + unescape_spec(s.skip(4))
    } else if starts_with(s, escape_byte(0x26, true)) {
        seq![0x26u8] + unescape_spec(s.skip(5))
    } else if starts_with(s, escape_byte(0x0d, true)) {
        seq![0x0du8] + unescape_spec(s.skip(5))
    } else if starts_with(s, escape_byte(0x22, true)) {
        seq![0x22u8] + unescape_spec(s.skip(5))
    } else if starts_with(s, escape_byte(0x27, true)) {
        seq![0x27u8] + unescape_spec(s.skip(5))
    } else if starts_with(s, escape_byte(0x0a, true)) {
        seq![0x0au8] + unescape_spec(s.skip(5))
    } else if starts_with(s, escape_byte(0x09, true)) {
        seq![0x09u8] + unescape_spec(s.skip(5))
    } else {
        seq![s[0]] + unescape_spec(s.skip(1))
    }
}

proof fn lemma_escape_concat(a: Seq<u8>, b: Seq<u8>, attr: bool)
    ensures escape_spec(a + b, attr) == escape_spec(a, attr) + escape_spec(b, attr),
    decreases b.len(),
{
    if b.len() == 0 {
        assert(a + b =~= a);
        assert(escape_spec(a, attr) + escape_spec(b, attr) =~= escape_spec(a, attr));
    } else {
        assert((a + b).drop_last() =~= a + b.drop_last());
        assert((a + b).last() == b.last());
        lemma_escape_concat(a, b.drop_last(), attr);
        assert(escape_spec(a + b, attr) =~= escape_spec(a, attr) + escape_spec(b, attr));
    }
}

proof fn lemma_escape_first(d: Seq<u8>, attr: bool)
    requires d.len() > 0,
    ensures escape_spec(d, attr) == escape_byte(d[0], attr) + escape_spec(d.skip(1), attr),
{
    let head = seq![d[0]];
    assert(head + d.skip(1) =~= d);
    lemma_escape_concat(head, d.skip(1), attr);
    assert(head.drop_last() =~= Seq::<u8>::empty());
    assert(escape_spec(head.drop_last(), attr) =~= Seq::<u8>::empty());
    assert(head.last() == d[0]);
    assert(escape_spec(head, attr) =~= escape_byte(d[0], attr));
}

proof fn lemma_unescape_byte(b: u8, attr: bool, rest: Seq<u8>)
    ensures unescape_spec(escape_byte(b, attr) + rest) == seq![b] + unescape_spec(rest),
{
    let code = escape_byte(b, attr);
    let s = code + rest;
    assert(s.skip(code.len() as int) =~= rest);
    assert(s.take(code.len() as int) =~= code);
    assert(s[0] == code[0]);
    if code.len() > 1 {
        assert(s.take(4) =~= code.take(4));
        assert(s[1] == code[1]);
        assert(s[2] == code[2]);
        assert(s[3] == code[3]);
    }
}

/// Escaping loses nothing: undoing the references gives back the data,
/// so two different texts never escape to the same bytes.
pub proof fn law_unescape_undoes_escape(data: Seq<u8>, other: Seq<u8>, attr: bool)
    ensures
        unescape_spec(escape_spec(data, attr)) == data,
        escape_spec(data, attr) == escape_spec(other, attr) ==> data == other,
{
    lemma_unescape_escape(data, attr);
    lemma_unescape_escape(other, attr);
}

proof fn lemma_unescape_escape(data: Seq<u8>, attr: bool)
    ensures unescape_spec(escape_spec(data, attr)) == data,
    decreases data.len(),
{
    if data.len() == 0 {
        assert(escape_spec(data, attr) =~= Seq::<u8>::empty());
        assert(unescape_spec(Seq::<u8>::empty()) =~= data);
    } else {
        lemma_escape_first(data, attr);
        lemma_unescape_byte(data[0], attr, escape_spec(data.skip(1), attr));
        lemma_unescape_escape(data.skip(1), attr);
        assert(seq![data[0]] + data.skip(1) =~= data);
    }
}

} // verus!
