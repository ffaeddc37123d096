//! Reading runs of selected bytes from a buffer.
use vstd::prelude::*;

use super::ranges::ByteSelect;

verus! {

/// Why a run of bytes ended.
#[derive(Debug, PartialEq, Eq, Clone, Copy)]
pub enum Endbyte {
    /// The end of the buffer was reached.
    Eof,
    /// The length limit was reached.
    Limit,
    /// A byte which is not selected was found; it was consumed.
    Delimiter(u8),
}

/// The length of the longest prefix of `s` whose bytes `sel` all accepts.
pub open spec fn leading_run<B: ByteSelect>(sel: &B, s: Seq<u8>) -> nat
    decreases s.len(),
{
    if s.len() == 0 {
        0
    } else if sel.selects(s[0]) {
        1 + leading_run(sel, s.drop_first())
    } else {
        0
    }
}

/// The run is made of selected bytes and ends at the end of `s` or at a
/// byte which is not selected.
pub proof fn lemma_leading_run<B: ByteSelect>(sel: &B, s: Seq<u8>)
    ensures
        leading_run(sel, s) <= s.len(),
        forall|i: int| 0 <= i < leading_run(sel, s) ==> sel.selects(#[trigger] s[i]),
        leading_run(sel, s) < s.len() ==> !sel.selects(s[leading_run(sel, s) as int]),
    decreases s.len(),
{
    if s.len() > 0 && sel.selects(s[0]) {
        lemma_leading_run(sel, s.drop_first());
        assert forall|i: int| 0 <= i < leading_run(sel, s) implies sel.selects(#[trigger] s[i]) by {
            if i > 0 {
                assert(s[i] == s.drop_first()[i - 1]);
            }
        }
    }
}

/// A run characterized by its bytes is the leading run.
proof fn lemma_leading_run_unique<B: ByteSelect>(sel: &B, s: Seq<u8>, n: int)
    requires
        0 <= n <= s.len(),
        forall|i: int| 0 <= i < n ==> sel.selects(#[trigger] s[i]),
        n < s.len() ==> !sel.selects(s[n]),
    ensures leading_run(sel, s) == n,
    decreases s.len(),
{
    if n > 0 {
        assert(sel.selects(s[0]));
        assert forall|i: int| 0 <= i < n - 1 implies sel.selects(#[trigger] s.drop_first()[i]) by {
            assert(s.drop_first()[i] == s[i + 1]);
        }
        lemma_leading_run_unique(sel, s.drop_first(), n - 1);
    }
}

/// What [`read_validated_bytes`] does to a buffer `s`: the bytes it takes,
/// the remaining buffer and why it stopped.
pub open spec fn read_validated_spec<B: ByteSelect>(sel: &B, s: Seq<u8>, limit: nat) -> (
    Seq<u8>,
    Seq<u8>,
    Endbyte,
) {
    let run = leading_run(sel, s);
    let end = if run < limit { run } else { limit };
    if end < s.len() {
        let b = s[end as int];
        if !sel.selects(b) {
            (s.subrange(0, end as int), s.subrange(end + 1int, s.len() as int), Endbyte::Delimiter(b))
        } else {
            (s.subrange(0, end as int), s.subrange(end as int, s.len() as int), Endbyte::Limit)
        }
    } else {
        (s, Seq::empty(), Endbyte::Eof)
    }
}

fn find_first_not<B: ByteSelect>(src: &[u8], s: &B) -> (r: usize)
    ensures r == leading_run(s, src@),
{
    let mut i: usize = 0;
    while i < src.len()
        invariant
            i <= src.len(),
            forall|j: int| 0 <= j < i ==> s.selects(#[trigger] src@[j]),
        decreases src.len() - i,
    {
        if !s.select(src[i]) {
            proof { lemma_leading_run_unique(s, src@, i as int); }
            return i;
        }
        i = i + 1;
    }
    proof { lemma_leading_run_unique(s, src@, i as int); }
    i
}

/// Read the longest run of selected bytes, up to `limit` bytes, from `r`
/// into `into`, and advance `r` past it; a delimiter which ends the run is
/// consumed too.
pub fn read_validated_bytes<B: ByteSelect>(
    r: &mut &[u8],
    selector: &B,
    limit: usize,
    into: &mut Vec<u8>,
) -> (e: Endbyte)
    ensures
        ({
            let (taken, rest, why) = read_validated_spec(selector, old(r)@, limit as nat);
            &&& final(into)@ == old(into)@ + taken
            &&& final(r)@ == rest
            &&& e == why
        }),
{
    let src: &[u8] = *r;
    let run = find_first_not(src, selector);
    let end_pos = if run < limit { run } else { limit };
    proof { lemma_leading_run(selector, src@); }
    let (prefix, delim_suffix) = src.split_at(end_pos);
    into.extend_from_slice(prefix);
    if delim_suffix.len() > 0 {
        let b = delim_suffix[0];
        if !selector.select(b) {
            let (_, tail) = delim_suffix.split_at(1);
            *r = tail;
            assert(tail@ =~= src@.subrange(end_pos + 1, src@.len() as int));
            Endbyte::Delimiter(b)
        } else {
            *r = delim_suffix;
            Endbyte::Limit
        }
    } else {
        *r = delim_suffix;
        assert(prefix@ =~= src@);
        Endbyte::Eof
    }
}

/// What [`skip_matching_bytes`] does to a buffer `s`: the number of bytes
/// skipped, the remaining buffer and why it stopped.
pub open spec fn skip_matching_spec<B: ByteSelect>(sel: &B, s: Seq<u8>) -> (nat, Seq<u8>, Endbyte) {
    let run = leading_run(sel, s);
    if run < s.len() {
        (run, s.subrange(run + 1int, s.len() as int), Endbyte::Delimiter(s[run as int]))
    } else {
        (run, Seq::empty(), Endbyte::Eof)
    }
}

/// Skip the longest run of selected bytes in `r`, consuming the delimiter
/// which ends it, if any; returns the length of the run.
pub fn skip_matching_bytes<B: ByteSelect>(r: &mut &[u8], selector: &B) -> (res: (usize, Endbyte))
    ensures
        ({
            let (n, rest, why) = skip_matching_spec(selector, old(r)@);
            &&& res.0 == n
            &&& final(r)@ == rest
            &&& res.1 == why
        }),
{
    let src: &[u8] = *r;
    let end_pos = find_first_not(src, selector);
    proof { lemma_leading_run(selector, src@); }
    let (_, delim_suffix) = src.split_at(end_pos);
    if delim_suffix.len() > 0 {
        let b = delim_suffix[0];
        let (_, tail) = delim_suffix.split_at(1);
        *r = tail;
        assert(tail@ =~= src@.subrange(end_pos + 1, src@.len() as int));
        (end_pos, Endbyte::Delimiter(b))
    } else {
        *r = delim_suffix;
        (end_pos, Endbyte::Eof)
    }
}

/// The parts [`read_validated_spec`] cuts a buffer into: the bytes taken,
/// all selected and at most `limit` of them; a consumed delimiter after
/// them if the run ended at one; and the rest of the buffer.
pub proof fn lemma_read_validated_spec<B: ByteSelect>(sel: &B, s: Seq<u8>, limit: nat)
    ensures
        ({
            let (taken, rest, why) = read_validated_spec(sel, s, limit);
            &&& taken.len() <= limit
            &&& forall|i: int| 0 <= i < taken.len() ==> sel.selects(#[trigger] taken[i])
            &&& taken == s.subrange(0, taken.len() as int)
            &&& rest == s.subrange(s.len() - rest.len(), s.len() as int)
            &&& match why {
                Endbyte::Delimiter(b) => s.len() == taken.len() + 1 + rest.len() && !sel.selects(b)
                    && s[taken.len() as int] == b,
                Endbyte::Limit => s.len() == taken.len() + rest.len() && taken.len() == limit
                    && rest.len() > 0,
                Endbyte::Eof => taken == s && rest.len() == 0,
            }
        }),
{
    lemma_leading_run(sel, s);
    let (taken, rest, why) = read_validated_spec(sel, s, limit);
    let run = leading_run(sel, s);
    let end = if run < limit { run } else { limit };
    assert forall|i: int| 0 <= i < taken.len() implies sel.selects(#[trigger] taken[i]) by {
        assert(taken[i] == s[i]);
    }
    assert(s.subrange(0, s.len() as int) =~= s);
    if end < s.len() {
        assert(s.subrange(0, end as int) =~= s.subrange(0, end as int));
    }
}

/// The parts [`skip_matching_spec`] cuts a buffer into.
pub proof fn lemma_skip_matching_spec<B: ByteSelect>(sel: &B, s: Seq<u8>)
    ensures
        ({
            let (n, rest, why) = skip_matching_spec(sel, s);
            &&& n <= s.len()
            &&& forall|i: int| 0 <= i < n ==> sel.selects(#[trigger] s[i])
            &&& rest == s.subrange(s.len() - rest.len(), s.len() as int)
            &&& match why {
                Endbyte::Delimiter(b) => s.len() == n + 1 + rest.len() && !sel.selects(b) && s[n as int] == b,
                Endbyte::Limit => false,
                Endbyte::Eof => n == s.len() && rest.len() == 0,
            }
        }),
{
    lemma_leading_run(sel, s);
}

/// After a run of `c` which ends inside `c`, more bytes change nothing.
proof fn lemma_leading_run_extend<B: ByteSelect>(sel: &B, c: Seq<u8>, d: Seq<u8>)
    requires leading_run(sel, c) < c.len(),
    ensures leading_run(sel, c + d) == leading_run(sel, c),
{
    lemma_leading_run(sel, c);
    let n = leading_run(sel, c) as int;
    assert forall|i: int| 0 <= i < n implies sel.selects(#[trigger] (c + d)[i]) by {
        assert((c + d)[i] == c[i]);
        assert(sel.selects(c[i]));
    }
    assert((c + d)[n] == c[n]);
    lemma_leading_run_unique(sel, c + d, n);
}

/// A run which covers all of `c` goes on into `d`.
proof fn lemma_leading_run_resume<B: ByteSelect>(sel: &B, c: Seq<u8>, d: Seq<u8>)
    requires leading_run(sel, c) == c.len(),
    ensures leading_run(sel, c + d) == c.len() + leading_run(sel, d),
{
    lemma_leading_run(sel, c);
    lemma_leading_run(sel, d);
    let n: int = (c.len() + leading_run(sel, d)) as int;
    assert forall|i: int| 0 <= i < n implies sel.selects(#[trigger] (c + d)[i]) by {
        if i < c.len() {
            assert((c + d)[i] == c[i]);
        } else {
            assert((c + d)[i] == d[i - c.len()]);
        }
    }
    if n < (c + d).len() {
        assert((c + d)[n] == d[leading_run(sel, d) as int]);
    }
    lemma_leading_run_unique(sel, c + d, n);
}

/// A read which stops inside `c` reads the same from `c` followed by more
/// bytes; only the rest grows.
pub proof fn lemma_read_validated_extend<B: ByteSelect>(sel: &B, c: Seq<u8>, d: Seq<u8>, limit: nat)
    requires !(read_validated_spec(sel, c, limit).2 is Eof),
    ensures ({
        let (t, r, w) = read_validated_spec(sel, c, limit);
        read_validated_spec(sel, c + d, limit) == (t, r + d, w)
    }),
{
    lemma_leading_run(sel, c);
    let run = leading_run(sel, c);
    let end = if run < limit { run } else { limit };
    if run < c.len() {
        lemma_leading_run_extend(sel, c, d);
    } else {
        lemma_leading_run_resume(sel, c, d);
    }
    assert((c + d)[end as int] == c[end as int]);
    assert((c + d).subrange(0, end as int) =~= c.subrange(0, end as int));
    assert((c + d).subrange(end + 1int, (c + d).len() as int) =~= c.subrange(end + 1int, c.len() as int) + d);
    assert((c + d).subrange(end as int, (c + d).len() as int) =~= c.subrange(end as int, c.len() as int) + d);
}

/// A read which takes all of `c` goes on into `d` with the room left.
pub proof fn lemma_read_validated_resume<B: ByteSelect>(sel: &B, c: Seq<u8>, d: Seq<u8>, limit: nat)
    requires read_validated_spec(sel, c, limit).2 is Eof,
    ensures ({
        let (t, r, w) = read_validated_spec(sel, d, (limit - c.len()) as nat);
        &&& c.len() <= limit
        &&& read_validated_spec(sel, c + d, limit) == (c + t, r, w)
    }),
{
    lemma_leading_run(sel, c);
    lemma_leading_run(sel, d);
    lemma_leading_run_resume(sel, c, d);
    let rd = leading_run(sel, d);
    let lim2 = (limit - c.len()) as nat;
    let end2 = if rd < lim2 { rd } else { lim2 };
    let end = c.len() + end2;
    assert((c + d).subrange(0, end as int) =~= c + d.subrange(0, end2 as int));
    if end2 < d.len() {
        assert((c + d)[end as int] == d[end2 as int]);
        assert((c + d).subrange(end + 1int, (c + d).len() as int) =~= d.subrange(end2 + 1int, d.len() as int));
        assert((c + d).subrange(end as int, (c + d).len() as int) =~= d.subrange(end2 as int, d.len() as int));
    } else {
        assert(d.subrange(0, end2 as int) =~= d);
    }
}

/// A skip which stops inside `c` skips the same in `c` followed by more
/// bytes; only the rest grows.
pub proof fn lemma_skip_matching_extend<B: ByteSelect>(sel: &B, c: Seq<u8>, d: Seq<u8>)
    requires !(skip_matching_spec(sel, c).2 is Eof),
    ensures ({
        let (n, r, w) = skip_matching_spec(sel, c);
        skip_matching_spec(sel, c + d) == (n, r + d, w)
    }),
{
    lemma_leading_run_extend(sel, c, d);
    let run = leading_run(sel, c) as int;
    assert((c + d)[run] == c[run]);
    assert((c + d).subrange(run + 1, (c + d).len() as int) =~= c.subrange(run + 1, c.len() as int) + d);
}

/// A skip over all of `c` goes on into `d`.
pub proof fn lemma_skip_matching_resume<B: ByteSelect>(sel: &B, c: Seq<u8>, d: Seq<u8>)
    requires skip_matching_spec(sel, c).2 is Eof,
    ensures ({
        let (n, r, w) = skip_matching_spec(sel, d);
        skip_matching_spec(sel, c + d) == (c.len() + n, r, w)
    }),
{
    lemma_leading_run(sel, c);
    lemma_leading_run(sel, d);
    lemma_leading_run_resume(sel, c, d);
    let rd = leading_run(sel, d) as int;
    if rd < d.len() {
        assert((c + d)[c.len() + rd] == d[rd]);
        assert((c + d).subrange(c.len() + rd + 1, (c + d).len() as int) =~= d.subrange(rd + 1, d.len() as int));
    }
}

} // verus!
