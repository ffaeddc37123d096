//! Items shared by the raw parser and the namespace resolver.
use vstd::prelude::*;

use crate::error::{Error, IOErrorWrapper, Result};
use crate::lexer::{ctr_advance, lemma_ctr_advance_zero, Lexer, Token};

verus! {

/// XML version number. Only version 1.0 is supported.
#[derive(Debug, Clone, Copy, PartialEq, Eq, Structural)]
pub enum XMLVersion {
    /// XML Version 1.0
    V1_0,
}

/// XML core namespace URI (for the `xml:` prefix).
pub const XMLNS_XML: &'static str = "http://www.w3.org/XML/1998/namespace";

/// XML namespace URI (for the `xmlns:` prefix).
pub const XMLNS_XMLNS: &'static str = "http://www.w3.org/2000/xmlns/";

/// Carry measurement information about an event.
///
/// In contrast to tokens, events are always consecutive. Any whitespace
/// between the XML declaration and the root element is attributed to the
/// root element header. Only the length is accounted; event length overflows
/// are reported as [`crate::Error::RestrictedXml`] errors.
#[derive(Copy, Debug, Clone, PartialEq, Eq, Structural)]
pub struct EventMetrics {
    len: usize,
}

impl EventMetrics {
    /// Get the number of bytes used to generate this event.
    pub fn len(&self) -> (r: usize)
        ensures r == self.spec_len(),
    {
        self.len
    }

    /// Create new event metrics.
    pub fn new(len: usize) -> (r: EventMetrics)
        ensures r.spec_len() == len,
    {
        EventMetrics { len: len }
    }

    /// The number of bytes of the event.
    pub closed spec fn spec_len(&self) -> usize {
        self.len
    }

    /// Event metrics are their length: two with equal lengths are equal.
    pub proof fn law_metrics_are_their_length(a: EventMetrics, b: EventMetrics)
        requires a.spec_len() == b.spec_len(),
        ensures a == b,
    {
    }
}

/// Read individual tokens from a source.
///
/// Analogously to `std::io::Read` and intended as a wrapper around a
/// [`Lexer`], this trait provides individual tokens.
pub trait TokenRead {
    /// Whether the source is in a state in which it can be read from.
    open spec fn source_ok(&self) -> bool {
        true
    }

    /// The bytes which the source was created with, where it knows them;
    /// reading does not change them.
    open spec fn origin(&self) -> Seq<u8> {
        Seq::empty()
    }

    /// The lexer and the end-of-document flag with which the source was
    /// created, where it knows them; reading does not change them.
    open spec fn origin_lexer(&self) -> Option<(Lexer, bool)> {
        None
    }

    /// Whether the source keeps a record of what it delivers, in
    /// [`TokenRead::delivered`].
    open spec fn keeps_log(&self) -> bool {
        false
    }

    /// The results which the source has delivered so far, oldest first,
    /// where it keeps a record of them.
    open spec fn delivered(&self) -> Seq<Result<Option<Token>>> {
        Seq::empty()
    }

    /// Return a single token from the source.
    ///
    /// If the end of file has been reached without errors, `None` is
    /// returned. Lexer errors and I/O errors are passed through. A source
    /// which keeps a record adds the result to it.
    fn read(&mut self) -> (r: Result<Option<Token>>)
        requires old(self).source_ok(),
        ensures
            final(self).source_ok(),
            final(self).origin() == old(self).origin(),
            final(self).origin_lexer() == old(self).origin_lexer(),
            old(self).keeps_log() ==> final(self).keeps_log()
                && final(self).delivered() == old(self).delivered().push(r),
    ;
}

/// What one call of [`Lexer::lex_bytes`] with the end-of-document flag
/// `at_eof` on the bytes `s` does: a lexer which has failed repeats its
/// error and consumes nothing; otherwise it lexes as
/// [`Lexer::lexes_bytes`] says.
pub open spec fn lexer_reads(l: Lexer, at_eof: bool, s: Seq<u8>, new: Lexer, new_s: Seq<u8>, r: Result<Option<Token>>) -> bool {
    match l.cached_error() {
        Some(e) => r == Err::<Option<Token>, Error>(e) && new_s == s && new.cached_error() == Some(e),
        None => l.lexes_bytes(at_eof, s, new, new_s, r),
    }
}

/// The lexer `l`, given the bytes `s` and the flag `at_eof`, delivered the
/// results `got` by successive calls of [`Lexer::lex_bytes`], which left
/// the lexer `new` and the bytes `new_s`.
pub open spec fn lexer_delivers(l: Lexer, at_eof: bool, s: Seq<u8>, got: Seq<Result<Option<Token>>>, new: Lexer,
    new_s: Seq<u8>) -> bool
    decreases got.len(),
{
    if got.len() == 0 {
        new == l && new_s == s
    } else {
        exists|mid: Lexer, mid_s: Seq<u8>| #![trigger lexer_reads(mid, at_eof, mid_s, new, new_s, got.last())]
            lexer_delivers(l, at_eof, s, got.drop_last(), mid, mid_s)
            && lexer_reads(mid, at_eof, mid_s, new, new_s, got.last())
    }
}

/// One more call extends what a lexer delivered.
pub proof fn lemma_lexer_delivers_push(l: Lexer, at_eof: bool, s: Seq<u8>, got: Seq<Result<Option<Token>>>,
    mid: Lexer, mid_s: Seq<u8>, new: Lexer, new_s: Seq<u8>, r: Result<Option<Token>>)
    requires
        lexer_delivers(l, at_eof, s, got, mid, mid_s),
        lexer_reads(mid, at_eof, mid_s, new, new_s, r),
    ensures
        lexer_delivers(l, at_eof, s, got.push(r), new, new_s),
{
    assert(got.push(r).drop_last() =~= got);
    assert(got.push(r).last() == r);
}

/// What a lexer delivers over two stretches of calls, it delivers over
/// both together.
pub proof fn lemma_lexer_delivers_concat(l: Lexer, at_eof: bool, s: Seq<u8>, g1: Seq<Result<Option<Token>>>,
    mid: Lexer, mid_s: Seq<u8>, g2: Seq<Result<Option<Token>>>, new: Lexer, new_s: Seq<u8>)
    requires
        lexer_delivers(l, at_eof, s, g1, mid, mid_s),
        lexer_delivers(mid, at_eof, mid_s, g2, new, new_s),
    ensures
        lexer_delivers(l, at_eof, s, g1 + g2, new, new_s),
    decreases g2.len(),
{
    if g2.len() == 0 {
        assert(g1 + g2 =~= g1);
    } else {
        let (m2, m2_s) = choose|m2: Lexer, m2_s: Seq<u8>| #![trigger lexer_reads(m2, at_eof, m2_s, new, new_s, g2.last())]
            lexer_delivers(mid, at_eof, mid_s, g2.drop_last(), m2, m2_s)
            && lexer_reads(m2, at_eof, m2_s, new, new_s, g2.last());
        lemma_lexer_delivers_concat(l, at_eof, s, g1, mid, mid_s, g2.drop_last(), m2, m2_s);
        assert((g1 + g2).drop_last() =~= g1 + g2.drop_last());
        assert((g1 + g2).last() == g2.last());
    }
}

/// What reading one token from a byte slice which holds the rest of the
/// document does ([`LexerAdapter`]): the lexer is given the bytes without
/// the end-of-document flag (unless there are none), and only when it has
/// used them all and would block is it given the end of the document.
pub open spec fn slice_reads(l: Lexer, s: Seq<u8>, new: Lexer, new_s: Seq<u8>, r: Result<Option<Token>>) -> bool {
    match l.cached_error() {
        Some(e) => r == Err::<Option<Token>, Error>(e) && new_s == s && new.cached_error() == Some(e),
        None => {
            let at_end = s.len() == 0;
            ||| (!(r matches Err(Error::IO(_))) && l.lexes_bytes(at_end, s, new, new_s, r))
            ||| exists|mid: Lexer, w: IOErrorWrapper|
                #[trigger] l.lexes_bytes(at_end, s, mid, Seq::<u8>::empty(), Err::<Option<Token>, Error>(Error::IO(w)))
                && mid.cached_error() is None && mid.lexes_bytes(true, Seq::<u8>::empty(), new, new_s, r)
        },
    }
}

/// The lexer `l`, reading tokens from a slice which held `s`, delivered
/// the results `got` ([`slice_reads`]), which left the lexer `new` and the
/// bytes `new_s`.
pub open spec fn slice_delivers(l: Lexer, s: Seq<u8>, got: Seq<Result<Option<Token>>>, new: Lexer, new_s: Seq<u8>) -> bool
    decreases got.len(),
{
    if got.len() == 0 {
        new == l && new_s == s
    } else {
        exists|mid: Lexer, mid_s: Seq<u8>| #![trigger slice_reads(mid, mid_s, new, new_s, got.last())]
            slice_delivers(l, s, got.drop_last(), mid, mid_s) && slice_reads(mid, mid_s, new, new_s, got.last())
    }
}

proof fn lemma_slice_delivers_push(l: Lexer, s: Seq<u8>, got: Seq<Result<Option<Token>>>,
    mid: Lexer, mid_s: Seq<u8>, new: Lexer, new_s: Seq<u8>, r: Result<Option<Token>>)
    requires
        slice_delivers(l, s, got, mid, mid_s),
        slice_reads(mid, mid_s, new, new_s, r),
    ensures
        slice_delivers(l, s, got.push(r), new, new_s),
{
    assert(got.push(r).drop_last() =~= got);
    assert(got.push(r).last() == r);
}

/// The results of a token source which delivered the tokens `toks`.
pub open spec fn delivered_tokens(toks: Seq<Option<Token>>) -> Seq<Result<Option<Token>>> {
    toks.map_values(|t: Option<Token>| Ok::<Option<Token>, Error>(t))
}

/// Wrapper around a [`Lexer`] and a byte source to provide a [`TokenRead`].
///
/// A byte slice (`&[u8]`) serves as source here: the lexer is fed the
/// slice, and its end is the end of the document.
pub struct LexerAdapter<R> {
    lexer: Lexer,
    src: R,
    start: Ghost<Lexer>,
    start_bytes: Ghost<Seq<u8>>,
    log: Ghost<Seq<Result<Option<Token>>>>,
    recording: Ghost<bool>,
}

impl<R> LexerAdapter<R> {
    /// The wrapped lexer.
    pub closed spec fn lexer(&self) -> Lexer {
        self.lexer
    }

    /// The wrapped byte source.
    pub closed spec fn source(&self) -> R {
        self.src
    }

    /// The lexer when the record of delivered tokens was started.
    pub closed spec fn start_lexer(&self) -> Lexer {
        self.start@
    }

    /// The bytes of the source when the record was started.
    pub closed spec fn start_bytes(&self) -> Seq<u8> {
        self.start_bytes@
    }

    /// Whether a record of delivered tokens is being kept.
    pub closed spec fn recording(&self) -> bool {
        self.recording@
    }

    /// The results delivered since the record was started.
    pub closed spec fn log(&self) -> Seq<Result<Option<Token>>> {
        self.log@
    }

    /// Wraps a lexer and a byte source.
    pub fn new(lexer: Lexer, src: R) -> (r: Self)
        ensures r.lexer() == lexer, r.source() == src, !r.recording(),
    {
        Self { lexer: lexer, src: src, start: Ghost(lexer), start_bytes: Ghost(Seq::empty()), log: Ghost(Seq::empty()),
            recording: Ghost(false) }
    }

    /// Consume self and return the wrapped lexer and byte source.
    pub fn into_inner(self) -> (r: (Lexer, R))
        ensures r.0 == self.lexer(), r.1 == self.source(),
    {
        (self.lexer, self.src)
    }

    /// Return a reference to the byte source.
    pub fn get_ref(&self) -> (r: &R)
        ensures *r == self.source(),
    {
        &self.src
    }

    /// Return a mutable reference to the byte source.
    pub fn get_mut(&mut self) -> (r: &mut R)
        ensures
            *r == old(self).source(),
            final(self).lexer() == old(self).lexer(),
            final(self).source() == *final(r),
            !final(self).recording(),
    {
        self.recording = Ghost(false);
        &mut self.src
    }

    /// Return a reference to the lexer.
    pub fn get_lexer(&self) -> (r: &Lexer)
        ensures *r == self.lexer(),
    {
        &self.lexer
    }

    /// Return a mutable reference to the lexer.
    pub fn get_lexer_mut(&mut self) -> (r: &mut Lexer)
        ensures
            *r == old(self).lexer(),
            final(self).source() == old(self).source(),
            final(self).lexer() == *final(r),
            !final(self).recording(),
    {
        self.recording = Ghost(false);
        &mut self.lexer
    }
}

impl<'a, 'b> LexerAdapter<&'a mut &'b [u8]> {
    /// The bytes of the slice which have not been lexed yet.
    pub closed spec fn rest(&self) -> Seq<u8> {
        (*self.src)@
    }

    /// Start a new record of the tokens which the adapter delivers, from
    /// its lexer and bytes as they are now.
    pub(crate) fn start_record(&mut self)
        ensures
            final(self).lexer() == old(self).lexer(),
            final(self).source() == old(self).source(),
            final(self).rest() == old(self).rest(),
            final(self).recording(),
            final(self).start_lexer() == old(self).lexer(),
            final(self).start_bytes() == old(self).rest(),
            final(self).log() == Seq::<Result<Option<Token>>>::empty(),
    {
        self.start = Ghost(self.lexer);
        self.start_bytes = Ghost((*self.src)@);
        self.log = Ghost(Seq::empty());
        self.recording = Ghost(true);
    }
}

impl<'a> LexerAdapter<&'a [u8]> {
    /// The bytes of the slice which have not been lexed yet.
    pub closed spec fn rest(&self) -> Seq<u8> {
        self.src@
    }
}

/// Lex one token from a byte slice which holds the rest of the document,
/// as a reader over the slice delivers it: the lexer first sees the bytes
/// without the end-of-document flag, so that a token which is complete in
/// them is emitted; only when it has used them all does it see the end of
/// the document.
fn read_slice(lexer: &mut Lexer, src: &mut &[u8]) -> (r: Result<Option<Token>>)
    requires old(lexer).wf(),
    ensures
        final(lexer).wf(),
        final(lexer).options() == old(lexer).options(),
        final(src)@.len() <= old(src)@.len(),
        final(src)@ == old(src)@.subrange(old(src)@.len() - final(src)@.len(), old(src)@.len() as int),
        final(lexer).spec_ctr() == ctr_advance(old(lexer).spec_ctr(), (old(src)@.len() - final(src)@.len()) as nat),
        !(r matches Err(Error::IO(_))),
        old(lexer).cached_error() matches Some(e) ==> r == Err::<Option<Token>, Error>(e)
            && final(src)@ == old(src)@ && final(lexer).cached_error() == Some(e),
        old(lexer).cached_error() is None && old(lexer).at_end() ==> r == Ok::<Option<Token>, Error>(None)
            && final(src)@ == old(src)@ && final(lexer).at_end(),
        old(lexer).cached_error() is None ==> match r {
            Ok(None) => final(lexer).at_end() && final(lexer).cached_error() is None,
            Ok(Some(_)) => final(lexer).cached_error() is None,
            Err(e) => final(lexer).cached_error() == Some(e),
        },
        slice_reads(*old(lexer), old(src)@, *final(lexer), final(src)@, r),
{
    let ghost s0 = src@;
    let ghost l0 = *lexer;
    proof { lexer.lemma_cached_error_not_io(); }
    let eof = src.len() == 0;
    let r = lexer.lex_bytes(src, eof);
    match r {
        Err(Error::IO(w)) => {
            let ghost c1 = lexer.spec_ctr();
            let ghost l1 = *lexer;
            let ghost s1 = src@;
            proof { lexer.lemma_cached_error_not_io(); }
            let r2 = lexer.lex_bytes(src, true);
            proof {
                lemma_ctr_advance_zero(c1);
                assert(src@ =~= s0.subrange(s0.len() - src@.len(), s0.len() as int));
                assert(s1 =~= Seq::<u8>::empty());
                assert(l0.lexes_bytes(s0.len() == 0, s0, l1, Seq::<u8>::empty(), Err::<Option<Token>, Error>(Error::IO(w))));
                assert(l1.lexes_bytes(true, Seq::<u8>::empty(), *lexer, src@, r2));
            }
            r2
        },
        other => other,
    }
}

impl<'a> TokenRead for LexerAdapter<&'a [u8]> {
    open spec fn source_ok(&self) -> bool {
        &&& self.lexer().wf()
        &&& self.recording() ==> slice_delivers(self.start_lexer(), self.start_bytes(), self.log(), self.lexer(), self.rest())
    }

    /// The bytes when the record of delivered tokens was started.
    open spec fn origin(&self) -> Seq<u8> {
        self.start_bytes()
    }

    /// The lexer when the record was started, while one is kept.
    open spec fn origin_lexer(&self) -> Option<(Lexer, bool)> {
        if self.recording() { Some((self.start_lexer(), true)) } else { None }
    }

    open spec fn keeps_log(&self) -> bool {
        true
    }

    open spec fn delivered(&self) -> Seq<Result<Option<Token>>> {
        self.log()
    }

    /// Lex the next token from the rest of the slice, whose end is the end
    /// of the document.
    fn read(&mut self) -> (r: Result<Option<Token>>)
        ensures
            final(self).lexer().options() == old(self).lexer().options(),
            slice_reads(old(self).lexer(), old(self).rest(), final(self).lexer(), final(self).rest(), r),
            final(self).source()@.len() <= old(self).source()@.len(),
            final(self).source()@ == old(self).source()@.subrange(
                old(self).source()@.len() - final(self).source()@.len(), old(self).source()@.len() as int),
            !(r matches Err(Error::IO(_))),
            old(self).lexer().cached_error() matches Some(e) ==> r == Err::<Option<Token>, Error>(e)
                && final(self).lexer().cached_error() == Some(e),
            old(self).lexer().cached_error() is None && old(self).lexer().at_end() ==> r == Ok::<Option<Token>, Error>(None)
                && final(self).lexer().at_end(),
            old(self).lexer().cached_error() is None ==> match r {
                Ok(None) => final(self).lexer().at_end() && final(self).lexer().cached_error() is None,
                Ok(Some(_)) => final(self).lexer().cached_error() is None,
                Err(e) => final(self).lexer().cached_error() == Some(e),
            },
    {
        let ghost l0 = self.lexer;
        let ghost s0 = self.src@;
        let r = read_slice(&mut self.lexer, &mut self.src);
        proof {
            if self.recording@ {
                lemma_slice_delivers_push(self.start@, self.start_bytes@, self.log@, l0, s0, self.lexer, self.src@, r);
            }
        }
        self.log = Ghost(self.log@.push(r));
        r
    }
}

impl<'a, 'b> TokenRead for LexerAdapter<&'a mut &'b [u8]> {
    open spec fn source_ok(&self) -> bool {
        &&& self.lexer().wf()
        &&& self.recording() ==> slice_delivers(self.start_lexer(), self.start_bytes(), self.log(), self.lexer(), self.rest())
    }

    /// The bytes when the record of delivered tokens was started.
    open spec fn origin(&self) -> Seq<u8> {
        self.start_bytes()
    }

    /// The lexer when the record was started, while one is kept.
    open spec fn origin_lexer(&self) -> Option<(Lexer, bool)> {
        if self.recording() { Some((self.start_lexer(), true)) } else { None }
    }

    open spec fn keeps_log(&self) -> bool {
        true
    }

    open spec fn delivered(&self) -> Seq<Result<Option<Token>>> {
        self.log()
    }

    /// Lex the next token from the rest of the slice, whose end is the end
    /// of the document.
    fn read(&mut self) -> (r: Result<Option<Token>>)
        ensures
            final(self).lexer().options() == old(self).lexer().options(),
            slice_reads(old(self).lexer(), old(self).rest(), final(self).lexer(), final(self).rest(), r),
            !(r matches Err(Error::IO(_))),
            old(self).lexer().cached_error() matches Some(e) ==> r == Err::<Option<Token>, Error>(e)
                && final(self).lexer().cached_error() == Some(e),
            old(self).lexer().cached_error() is None && old(self).lexer().at_end() ==> r == Ok::<Option<Token>, Error>(None)
                && final(self).lexer().at_end(),
            old(self).lexer().cached_error() is None ==> match r {
                Ok(None) => final(self).lexer().at_end() && final(self).lexer().cached_error() is None,
                Ok(Some(_)) => final(self).lexer().cached_error() is None,
                Err(e) => final(self).lexer().cached_error() == Some(e),
            },
    {
        let ghost l0 = self.lexer;
        let ghost s0 = (*self.src)@;
        let r = read_slice(&mut self.lexer, &mut *self.src);
        proof {
            if self.recording@ {
                lemma_slice_delivers_push(self.start@, self.start_bytes@, self.log@, l0, s0, self.lexer, (*self.src)@, r);
            }
        }
        self.log = Ghost(self.log@.push(r));
        r
    }
}

/// Trait for parser-like structs.
pub trait Parse: Sized {
    /// The type of the events which the parser emits.
    type Output;

    /// Whether the parser is in a consistent state.
    spec fn parser_ok(&self) -> bool;

    /// The error which the parser returns forever, once it has failed.
    spec fn failure(&self) -> Option<Error>;

    /// What one call of [`Parse::parse`] does, given that the token source
    /// delivered `got` during it: `new` is the parser afterwards and `res`
    /// the result.
    spec fn consumes(&self, got: Seq<Result<Option<Token>>>, new: Self, res: Result<Option<Self::Output>>) -> bool;

    /// Parse a single event using tokens from `r`.
    ///
    /// If the end of file has been reached after a document accepted by the
    /// parser, `None` is returned. Otherwise, if the document is still
    /// acceptable, the next event is returned. If the document violates a
    /// constraint, the corresponding error is returned. Errors from the
    /// token source are forwarded.
    ///
    /// I/O errors may be retried; every other error is fatal: it is
    /// returned again on every later call, which reads nothing from the
    /// token source.
    fn parse<R: TokenRead>(&mut self, r: &mut R) -> (res: Result<Option<Self::Output>>)
        requires old(self).parser_ok(), old(r).source_ok(),
        ensures
            final(self).parser_ok(),
            final(r).source_ok(),
            final(r).origin() == old(r).origin(),
            final(r).origin_lexer() == old(r).origin_lexer(),
            old(self).failure() matches Some(e) ==> res == Err::<Option<Self::Output>, Error>(e)
                && *final(self) == *old(self) && *final(r) == *old(r),
            old(self).failure() is None ==> match res {
                Err(Error::IO(_)) => final(self).failure() is None,
                Err(e) => final(self).failure() == Some(e),
                Ok(_) => final(self).failure() is None,
            },
            old(r).keeps_log() ==> final(r).keeps_log() && exists|got: Seq<Result<Option<Token>>>|
                final(r).delivered() == old(r).delivered() + got && #[trigger] old(self).consumes(got, *final(self), res),
    ;

    /// Release all temporary buffers or other ephemeral allocations.
    fn release_temporaries(&mut self)
        requires old(self).parser_ok(),
        ensures final(self).parser_ok(), final(self).failure() == old(self).failure(),
    ;
}

} // verus!
