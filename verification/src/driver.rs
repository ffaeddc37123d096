//! Drivers which feed bytes to a lexer and the tokens to a parser: the
//! non-blocking, push-based [`PushDriver`] and the pull-based
//! [`PullDriver`].
use vstd::prelude::*;

use crate::error::{Error, Result};
use crate::lexer::{Lexer, LexerOptions};
use crate::lexer::Token;
use crate::parser::{
    lemma_lexer_delivers_concat, lexer_delivers, slice_delivers, BufferLexerAdapter, LexerAdapter, Parse, Parser,
    RawParser, TokenRead,
};

verus! {

/// The number of events which [`EventRead::read_all`] and
/// [`PushDriver::parse_all`] hand out in one call at most; after that many
/// they return an error.
pub const MAX_EVENTS_PER_CALL: u64 = 0xffff_ffff_ffff_ffff;

/// Source for individual XML events, analogous to `std::io::Read`, but for
/// document events instead of bytes.
pub trait EventRead: Sized {
    /// The type of the events.
    type Output;

    /// Whether the reader is in a state in which it can be read from.
    spec fn reader_ok(&self) -> bool;

    /// The error which the reader returns forever, once it has failed.
    spec fn read_failure(&self) -> Option<Error>;

    /// Whether this reader holds the same parser and input as `before`:
    /// only bookkeeping which has no effect on reading may differ.
    spec fn unchanged(&self, before: &Self) -> bool;

    /// What one call of [`EventRead::read`] does: `new` is the reader
    /// afterwards and `r` the result.
    spec fn yields(&self, new: Self, r: Result<Option<Self::Output>>) -> bool;

    /// Read a single event from the parser.
    ///
    /// If the end of file has been reached with a valid document, `None` is
    /// returned. I/O errors may be retried, all other errors are fatal and
    /// returned again on the next invocation without reading further data.
    fn read(&mut self) -> (r: Result<Option<Self::Output>>)
        requires old(self).reader_ok(),
        ensures
            final(self).reader_ok(),
            old(self).read_failure() matches Some(e) ==> r == Err::<Option<Self::Output>, Error>(e)
                && final(self).unchanged(&*old(self)) && final(self).read_failure() == Some(e),
            old(self).read_failure() is None ==> match r {
                Err(Error::IO(_)) => final(self).read_failure() is None,
                Err(e) => final(self).read_failure() == Some(e),
                Ok(_) => final(self).read_failure() is None,
            },
            old(self).yields(*final(self), r),
    ;

    /// Read all events which can be produced from the data source (at this
    /// point in time), handing each to `cb`.
    ///
    /// A failed reader returns its error without reading; an error which
    /// makes the reader fail is the one returned.
    fn read_all<F: FnMut(Self::Output)>(&mut self, cb: F) -> (r: Result<()>)
        requires
            old(self).reader_ok(),
            forall|g: F, x: Self::Output| g.requires((x,)),
        ensures
            final(self).reader_ok(),
            old(self).read_failure() matches Some(e) ==> r == Err::<(), Error>(e) && final(self).unchanged(&*old(self)),
            final(self).read_failure() matches Some(e) ==> r == Err::<(), Error>(e),
            exists|evs: Seq<Self::Output>, rs: Seq<Self>| #![trigger rs[0], evs.len()]
                rs.len() == evs.len() + 1 && rs[0] == *old(self)
                && (forall|i: int| #![trigger evs[i]] 0 <= i < evs.len() ==>
                    rs[i].yields(rs[i + 1], Ok::<Option<Self::Output>, Error>(Some(evs[i])))
                    && handed_to::<Self::Output, F>(evs[i]))
                && ((exists|lr: Result<Option<Self::Output>>| #[trigger] rs.last().yields(*final(self), lr) && match lr {
                        Ok(None) => r == Ok::<(), Error>(()),
                        Err(e) => r == Err::<(), Error>(e),
                        Ok(Some(_)) => false,
                    })
                || (evs.len() == MAX_EVENTS_PER_CALL && *final(self) == rs.last()
                    && r == Err::<(), Error>(Error::RestrictedXml("too many events in one call")))),
    {
        let mut cb = cb;
        let mut budget: u64 = MAX_EVENTS_PER_CALL;
        let ghost mut evs: Seq<Self::Output> = Seq::empty();
        let ghost mut rs: Seq<Self> = seq![*self];
        proof {
            assert(rs[0] == *old(self));
            assert(rs.len() == evs.len() + 1);
        }
        loop
            invariant
                self.reader_ok(),
                forall|g: F, x: Self::Output| g.requires((x,)),
                budget == MAX_EVENTS_PER_CALL ==> *self == *old(self),
                budget < MAX_EVENTS_PER_CALL ==> self.read_failure() is None && old(self).read_failure() is None,
                rs.len() == evs.len() + 1,
                rs[0] == *old(self),
                forall|i: int| #![trigger evs[i]] 0 <= i < evs.len() ==>
                    rs[i].yields(rs[i + 1], Ok::<Option<Self::Output>, Error>(Some(evs[i]))),
                rs.last() == *self,
                evs.len() + budget == MAX_EVENTS_PER_CALL,
                forall|i: int| 0 <= i < evs.len() ==> #[trigger] handed_to::<Self::Output, F>(evs[i]),
            decreases budget,
        {
            if budget == 0 {
                proof {
                    assert(rs[0] == *old(self) && evs.len() == MAX_EVENTS_PER_CALL);
                }
                return Err(Error::RestrictedXml("too many events in one call"));
            }
            budget = budget - 1;
            let ghost mid = *self;
            let rr = self.read();
            match rr {
                Err(e) => {
                    proof {
                        assert(rs.last().yields(*self, Err::<Option<Self::Output>, Error>(e)));
                        assert(rs[0] == *old(self) && evs.len() + 1 == rs.len());
                    }
                    return Err(e);
                },
                Ok(None) => {
                    proof {
                        assert(rs.last().yields(*self, Ok::<Option<Self::Output>, Error>(None)));
                        assert(rs[0] == *old(self) && evs.len() + 1 == rs.len());
                    }
                    return Ok(());
                },
                Ok(Some(ev)) => {
                    let ghost fprev = cb;
                    let ghost gev = ev;
                    cb(ev);
                    proof {
                        let ne = evs.push(gev);
                        assert(ne.drop_last() =~= evs);
                        assert(ne.last() == gev);
                        assert(mid.yields(*self, Ok::<Option<Self::Output>, Error>(Some(gev))));
                        let nrs = rs.push(*self);
                        assert forall|i: int| #![trigger ne[i]] 0 <= i < ne.len() implies
                            nrs[i].yields(nrs[i + 1], Ok::<Option<Self::Output>, Error>(Some(ne[i]))) by {
                            if i < evs.len() {
                                assert(nrs[i] == rs[i] && nrs[i + 1] == rs[i + 1] && ne[i] == evs[i]);
                            } else {
                                assert(nrs[i] == mid && nrs[i + 1] == *self && ne[i] == gev);
                            }
                        }
                        assert(nrs[0] == rs[0]);
                        rs = nrs;
                        assert(fprev.ensures((gev,), ()));
                        assert forall|i: int| 0 <= i < ne.len() implies #[trigger] handed_to::<Self::Output, F>(ne[i]) by {
                            if i < evs.len() {
                                assert(ne[i] == evs[i]);
                            } else {
                                assert(ne[i] == gev);
                                assert(fprev.ensures((ne[i],), ()));
                            }
                        }
                        evs = ne;
                    }
                },
            }
        }
    }

    /// Like [`EventRead::read_all`], but a source which would have to block
    /// gives `Ok(false)` and the end of the document `Ok(true)`.
    fn read_all_eof<F: FnMut(Self::Output)>(&mut self, cb: F) -> (r: Result<bool>)
        requires
            old(self).reader_ok(),
            forall|g: F, x: Self::Output| g.requires((x,)),
        ensures
            final(self).reader_ok(),
            old(self).read_failure() matches Some(e) ==> (!(e is IO) ==> r == Err::<bool, Error>(e)
                && final(self).unchanged(&*old(self))),
            final(self).read_failure() matches Some(e) ==> (!(e is IO) ==> r == Err::<bool, Error>(e)),
            exists|r0: Result<()>| #[trigger] eof_flag(r0) == r && (exists|evs: Seq<Self::Output>, rs: Seq<Self>| #![trigger rs[0], evs.len()]
                rs.len() == evs.len() + 1 && rs[0] == *old(self)
                && (forall|i: int| #![trigger evs[i]] 0 <= i < evs.len() ==>
                    rs[i].yields(rs[i + 1], Ok::<Option<Self::Output>, Error>(Some(evs[i])))
                    && handed_to::<Self::Output, F>(evs[i]))
                && ((exists|lr: Result<Option<Self::Output>>| #[trigger] rs.last().yields(*final(self), lr) && match lr {
                        Ok(None) => r0 == Ok::<(), Error>(()),
                        Err(e) => r0 == Err::<(), Error>(e),
                        Ok(Some(_)) => false,
                    })
                || (evs.len() == MAX_EVENTS_PER_CALL && *final(self) == rs.last()
                    && r0 == Err::<(), Error>(Error::RestrictedXml("too many events in one call"))))),
    {
        let r0 = self.read_all(cb);
        as_eof_flag(r0)
    }
}

/// The value `x` was handed to a callback of type `F`.
pub open spec fn handed_to<O, F: FnMut(O)>(x: O) -> bool {
    exists|g: F| #[trigger] g.ensures((x,), ())
}

/// The result of [`as_eof_flag`] for `r`.
pub open spec fn eof_flag(r: Result<()>) -> Result<bool> {
    match r {
        Ok(()) => Ok(true),
        Err(Error::IO(e)) => if e.would_block() { Ok(false) } else { Err(Error::IO(e)) },
        Err(e) => Err(e),
    }
}

/// Convert end-of-file-ness of a result to a boolean flag.
///
/// If the result is ok, return true (end of file). If the error is an I/O
/// error indicating that the data source would have to block, return false
/// ("ok, but not at the end yet"). All other errors are passed through.
pub fn as_eof_flag(r: Result<()>) -> (res: Result<bool>)
    ensures
        res == eof_flag(r),
        match r {
            Ok(()) => res == Ok::<bool, Error>(true),
            Err(Error::IO(e)) => if e.would_block() {
                res == Ok::<bool, Error>(false)
            } else {
                res == Err::<bool, Error>(Error::IO(e))
            },
            Err(e) => res == Err::<bool, Error>(e),
        },
{
    match r {
        Err(Error::IO(ioerr)) => {
            if ioerr.is_would_block() {
                Ok(false)
            } else {
                Err(Error::IO(ioerr))
            }
        },
        Err(e) => Err(e),
        Ok(()) => Ok(true),
    }
}

/// `new` is the parser `p` after calls of [`Parse::parse`] which emitted
/// the events `evs`, one per call, while the token source delivered `got`.
pub open spec fn parse_steps<P: Parse>(p: P, evs: Seq<P::Output>, got: Seq<Result<Option<Token>>>, new: P) -> bool
    decreases evs.len(),
{
    if evs.len() == 0 {
        got.len() == 0 && new == p
    } else {
        exists|mid: P, k: int| #![trigger mid.consumes(got.subrange(k, got.len() as int), new, Ok(Some(evs.last())))]
            0 <= k <= got.len() && parse_steps(p, evs.drop_last(), got.subrange(0, k), mid)
            && mid.consumes(got.subrange(k, got.len() as int), new, Ok(Some(evs.last())))
    }
}

/// One more event extends the calls of [`parse_steps`].
pub proof fn lemma_parse_steps_push<P: Parse>(p: P, evs: Seq<P::Output>, got: Seq<Result<Option<Token>>>, mid: P,
    g: Seq<Result<Option<Token>>>, ev: P::Output, new: P)
    requires
        parse_steps(p, evs, got, mid),
        mid.consumes(g, new, Ok(Some(ev))),
    ensures
        parse_steps(p, evs.push(ev), got + g, new),
{
    let all = got + g;
    assert(all.subrange(0, got.len() as int) =~= got);
    assert(all.subrange(got.len() as int, all.len() as int) =~= g);
    assert(evs.push(ev).drop_last() =~= evs);
    assert(evs.push(ev).last() == ev);
}

/// Non-blocking, push-based driver for parsers: it lexes the bytes of the
/// buffers it is handed and passes the tokens to its parser.
pub struct PushDriver<P: Parse> {
    parser: P,
    lexer: Lexer,
}

impl<P: Parse> PushDriver<P> {
    /// The parser.
    pub closed spec fn parser(&self) -> P {
        self.parser
    }

    /// The lexer.
    pub closed spec fn lexer(&self) -> Lexer {
        self.lexer
    }

    /// Whether lexer and parser are consistent.
    pub open spec fn driver_ok(&self) -> bool {
        self.lexer().wf() && self.parser().parser_ok()
    }

    /// Compose a new driver from parts.
    pub fn wrap(lexer: Lexer, parser: P) -> (r: Self)
        ensures r.lexer() == lexer, r.parser() == parser,
    {
        PushDriver { parser, lexer }
    }

    /// Parse bytes from a buffer until an error occurs, an event is emitted
    /// or the end of file is reached, advancing the slice past the bytes
    /// consumed.
    ///
    /// `at_eof` says whether the end of the buffer is the end of the
    /// document. If the end of the buffer is reached while `at_eof` is
    /// false, an I/O error of kind `WouldBlock` is emitted.
    pub fn parse(&mut self, data: &mut &[u8], at_eof: bool) -> (res: Result<Option<P::Output>>)
        requires old(self).driver_ok(),
        ensures
            final(self).driver_ok(),
            final(data)@.len() <= old(data)@.len(),
            final(data)@ == old(data)@.subrange(old(data)@.len() - final(data)@.len(), old(data)@.len() as int),
            old(self).parser().failure() matches Some(e) ==> res == Err::<Option<P::Output>, Error>(e)
                && *final(self) == *old(self) && final(data)@ == old(data)@,
            old(self).parser().failure() is None ==> match res {
                Err(Error::IO(_)) => final(self).parser().failure() is None,
                Err(e) => final(self).parser().failure() == Some(e),
                Ok(_) => final(self).parser().failure() is None,
            },
            exists|got: Seq<Result<Option<Token>>>|
                lexer_delivers(old(self).lexer(), at_eof, old(data)@, got, final(self).lexer(), final(data)@)
                && #[trigger] old(self).parser().consumes(got, final(self).parser(), res),
    {
        let mut lexer = Lexer::new();
        std::mem::swap(&mut lexer, &mut self.lexer);
        let mut src = BufferLexerAdapter::new(lexer, *data, at_eof);
        let ghost src0 = src;
        let res = self.parser.parse(&mut src);
        let ghost got = choose|got: Seq<Result<Option<Token>>>| src.delivered() == src0.delivered() + got
            && #[trigger] old(self).parser().consumes(got, self.parser, res);
        proof {
            assert(src.delivered() =~= got);
        }
        let (lexer, rest) = src.into_inner();
        self.lexer = lexer;
        *data = rest;
        res
    }

    /// Parse all data from the buffer and pass the events to `f`.
    ///
    /// On success this consumes the entire buffer; the end-of-file
    /// behaviour is that of [`PushDriver::parse`].
    pub fn parse_all<F: FnMut(P::Output)>(&mut self, data: &mut &[u8], at_eof: bool, f: F) -> (res: Result<()>)
        requires
            old(self).driver_ok(),
            forall|g: F, x: P::Output| g.requires((x,)),
        ensures
            final(self).driver_ok(),
            final(data)@.len() <= old(data)@.len(),
            final(data)@ == old(data)@.subrange(old(data)@.len() - final(data)@.len(), old(data)@.len() as int),
            old(self).parser().failure() matches Some(e) ==> res == Err::<(), Error>(e)
                && *final(self) == *old(self) && final(data)@ == old(data)@,
            final(self).parser().failure() matches Some(e) ==> res == Err::<(), Error>(e),
            exists|got: Seq<Result<Option<Token>>>, evs: Seq<P::Output>, k: int, mid: P|
                #![trigger parse_steps(old(self).parser(), evs, got.subrange(0, k), mid)]
                lexer_delivers(old(self).lexer(), at_eof, old(data)@, got, final(self).lexer(), final(data)@)
                && 0 <= k <= got.len() && parse_steps(old(self).parser(), evs, got.subrange(0, k), mid) && {
                    ||| exists|lres: Result<Option<P::Output>>| #[trigger] mid.consumes(got.subrange(k, got.len() as int),
                        final(self).parser(), lres) && match lres {
                            Ok(None) => res == Ok::<(), Error>(()),
                            Err(e) => res == Err::<(), Error>(e),
                            Ok(Some(_)) => false,
                        }
                    ||| (k == got.len() && final(self).parser() == mid
                        && res == Err::<(), Error>(Error::RestrictedXml("too many events in one call")))
                },
    {
        let mut f = f;
        let mut budget: u64 = MAX_EVENTS_PER_CALL;
        let ghost orig = data@;
        let ghost mut got: Seq<Result<Option<Token>>> = Seq::empty();
        let ghost mut evs: Seq<P::Output> = Seq::empty();
        proof {
            assert(lexer_delivers(old(self).lexer(), at_eof, orig, got, self.lexer(), data@));
            assert(parse_steps(old(self).parser(), evs, got, self.parser()));
        }
        loop
            invariant
                self.driver_ok(),
                forall|g: F, x: P::Output| g.requires((x,)),
                data@.len() <= orig.len(),
                data@ == orig.subrange(orig.len() - data@.len(), orig.len() as int),
                orig == old(data)@,
                budget == MAX_EVENTS_PER_CALL ==> *self == *old(self) && data@ == orig,
                budget < MAX_EVENTS_PER_CALL ==> self.parser().failure() is None
                    && old(self).parser().failure() is None,
                lexer_delivers(old(self).lexer(), at_eof, orig, got, self.lexer(), data@),
                parse_steps(old(self).parser(), evs, got, self.parser()),
            decreases budget,
        {
            if budget == 0 {
                proof {
                    assert(got.subrange(0, got.len() as int) =~= got);
                }
                return Err(Error::RestrictedXml("too many events in one call"));
            }
            budget = budget - 1;
            let ghost before = data@;
            let ghost l0 = self.lexer;
            let ghost p0 = self.parser;
            let pres = self.parse(data, at_eof);
            let ghost g = choose|g: Seq<Result<Option<Token>>>|
                lexer_delivers(l0, at_eof, before, g, self.lexer(), data@)
                && #[trigger] p0.consumes(g, self.parser(), pres);
            proof {
                lemma_lexer_delivers_concat(old(self).lexer(), at_eof, orig, got, l0, before, g, self.lexer(), data@);
                let all = got + g;
                assert(all.subrange(0, got.len() as int) =~= got);
                assert(all.subrange(got.len() as int, all.len() as int) =~= g);
            }
            match pres {
                Err(e) => {
                    assert(data@ =~= orig.subrange(orig.len() - data@.len(), orig.len() as int));
                    return Err(e);
                },
                Ok(None) => {
                    assert(data@ =~= orig.subrange(orig.len() - data@.len(), orig.len() as int));
                    return Ok(());
                },
                Ok(Some(ev)) => {
                    proof {
                        lemma_parse_steps_push(old(self).parser(), evs, got, p0, g, ev, self.parser());
                        evs = evs.push(ev);
                        got = got + g;
                    }
                    f(ev)
                },
            }
            assert(data@ =~= orig.subrange(orig.len() - data@.len(), orig.len() as int));
        }
    }

    /// Access the lexer.
    pub fn get_lexer(&self) -> (r: &Lexer)
        ensures *r == self.lexer(),
    {
        &self.lexer
    }

    /// Access the lexer, mutably.
    pub fn get_lexer_mut(&mut self) -> (r: &mut Lexer)
        ensures
            *r == old(self).lexer(),
            final(self).lexer() == *final(r),
            final(self).parser() == old(self).parser(),
    {
        &mut self.lexer
    }

    /// Access the parser.
    pub fn get_parser(&self) -> (r: &P)
        ensures *r == self.parser(),
    {
        &self.parser
    }

    /// Access the parser, mutably.
    pub fn get_parser_mut(&mut self) -> (r: &mut P)
        ensures
            *r == old(self).parser(),
            final(self).parser() == *final(r),
            final(self).lexer() == old(self).lexer(),
    {
        &mut self.parser
    }

    /// Decompose the driver into the lexer and the parser.
    pub fn into_inner(self) -> (r: (Lexer, P))
        ensures r.0 == self.lexer(), r.1 == self.parser(),
    {
        (self.lexer, self.parser)
    }

    /// Release all temporary buffers of lexer and parser.
    pub fn release_temporaries(&mut self)
        requires old(self).driver_ok(),
        ensures
            final(self).driver_ok(),
            old(self).lexer().same_content(&final(self).lexer()),
            final(self).parser().failure() == old(self).parser().failure(),
    {
        self.lexer.release_temporaries();
        self.parser.release_temporaries();
    }
}

impl PushDriver<Parser> {
    /// Create a new push driver with a fresh lexer and parser.
    pub fn new() -> (r: Self)
        ensures r.driver_ok(), r.parser().poisoned() is None, !r.parser().finished(),
    {
        PushDriver::wrap(Lexer::new(), Parser::new())
    }
}

impl std::default::Default for PushDriver<Parser> {
    /// Create a new push driver with a fresh lexer and parser.
    fn default() -> (r: Self)
        ensures r.driver_ok(), r.parser().poisoned() is None, !r.parser().finished(),
    {
        PushDriver::new()
    }
}

impl std::default::Default for PushDriver<RawParser> {
    /// Create a new push driver with a fresh lexer and raw parser.
    fn default() -> (r: Self)
        ensures r.driver_ok(), r.parser().poison() is None, !r.parser().finished(),
    {
        PushDriver::wrap(Lexer::new(), RawParser::new())
    }
}

/// Non-blocking parsing with namespace resolution: a [`PushDriver`] around
/// the default [`Parser`].
pub type FeedParser = PushDriver<Parser>;

/// Pull-based driver for parsers: it reads bytes from its source as the
/// parser needs them.
pub struct PullDriver<T, P: Parse> {
    parser: P,
    token_source: LexerAdapter<T>,
}

impl<T, P: Parse> PullDriver<T, P> {
    /// The parser.
    pub closed spec fn parser(&self) -> P {
        self.parser
    }

    /// The lexer and the byte source.
    pub closed spec fn source(&self) -> LexerAdapter<T> {
        self.token_source
    }

    /// Create a driver from a byte source, a lexer and a parser.
    pub fn wrap(inner: T, lexer: Lexer, parser: P) -> (r: Self)
        ensures
            r.source().lexer() == lexer,
            r.source().source() == inner,
            r.parser() == parser,
    {
        PullDriver { token_source: LexerAdapter::new(lexer, inner), parser }
    }

    /// Access the byte source.
    pub fn get_inner(&self) -> (r: &T)
        ensures *r == self.source().source(),
    {
        self.token_source.get_ref()
    }

    /// Access the byte source, mutably.
    pub fn get_inner_mut(&mut self) -> (r: &mut T)
        ensures
            *r == old(self).source().source(),
            final(self).source().source() == *final(r),
            final(self).source().lexer() == old(self).source().lexer(),
            final(self).parser() == old(self).parser(),
    {
        self.token_source.get_mut()
    }

    /// Access the lexer.
    pub fn get_lexer(&self) -> (r: &Lexer)
        ensures *r == self.source().lexer(),
    {
        self.token_source.get_lexer()
    }

    /// Access the lexer, mutably.
    pub fn get_lexer_mut(&mut self) -> (r: &mut Lexer)
        ensures
            *r == old(self).source().lexer(),
            final(self).source().lexer() == *final(r),
            final(self).source().source() == old(self).source().source(),
            final(self).parser() == old(self).parser(),
    {
        self.token_source.get_lexer_mut()
    }

    /// Access the parser.
    pub fn get_parser(&self) -> (r: &P)
        ensures *r == self.parser(),
    {
        &self.parser
    }

    /// Access the parser, mutably.
    pub fn get_parser_mut(&mut self) -> (r: &mut P)
        ensures
            *r == old(self).parser(),
            final(self).parser() == *final(r),
            final(self).source() == old(self).source(),
    {
        &mut self.parser
    }
}

impl<T> PullDriver<T, Parser> {
    /// Create a new parser with default lexer options, reading from `inner`.
    pub fn new(inner: T) -> (r: Self)
        ensures
            r.source().lexer().wf(),
            r.source().source() == inner,
            r.parser().parser_ok(),
            r.parser().poisoned() is None,
    {
        PullDriver::wrap(inner, Lexer::new(), Parser::new())
    }

    /// Create a new parser whose lexer has the given options.
    pub fn with_options(inner: T, options: LexerOptions) -> (r: Self)
        requires 1 <= options.max_token_length <= isize::MAX,
        ensures
            r.source().lexer().wf(),
            r.source().lexer().options() == options,
            r.source().source() == inner,
            r.parser().parser_ok(),
            r.parser().poisoned() is None,
    {
        PullDriver::wrap(inner, Lexer::with_options(options), Parser::new())
    }
}

impl<'a, 'b, P: Parse> EventRead for PullDriver<&'a mut &'b [u8], P> {
    type Output = P::Output;

    open spec fn reader_ok(&self) -> bool {
        self.source().lexer().wf() && self.parser().parser_ok()
    }

    open spec fn read_failure(&self) -> Option<Error> {
        self.parser().failure()
    }

    open spec fn unchanged(&self, before: &Self) -> bool {
        &&& self.parser() == before.parser()
        &&& self.source().lexer() == before.source().lexer()
        &&& self.source().source() == before.source().source()
    }

    /// The tokens which the parser gets are those which the lexer delivers
    /// from the rest of the slice ([`slice_delivers`]).
    open spec fn yields(&self, new: Self, r: Result<Option<P::Output>>) -> bool {
        exists|got: Seq<Result<Option<Token>>>|
            slice_delivers(self.source().lexer(), self.source().rest(), got, new.source().lexer(), new.source().rest())
            && #[trigger] self.parser().consumes(got, new.parser(), r)
    }

    /// Read an event from the rest of the slice.
    fn read(&mut self) -> (r: Result<Option<P::Output>>)
    {
        self.token_source.start_record();
        let ghost src0 = self.token_source;
        let r = self.parser.parse(&mut self.token_source);
        proof {
            let got = choose|got: Seq<Result<Option<Token>>>| self.token_source.delivered() == src0.delivered() + got
                && #[trigger] old(self).parser().consumes(got, self.parser, r);
            assert(self.token_source.delivered() =~= got);
        }
        r
    }
}

/// Pull-based parsing with namespace resolution: a [`PullDriver`] around
/// the default [`Parser`].
pub type PullParser<T> = PullDriver<T, Parser>;

} // verus!
