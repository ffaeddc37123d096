//! Restricted XML 1.0 parsers: the raw parser turns tokens into events, the
//! namespace resolver turns those into namespace-resolved events, and the
//! [`Parser`] combines both.
use vstd::prelude::*;

use crate::error::{Error, Result};
use crate::lexer::{ctr_advance, Lexer, Token};

pub mod common;
pub mod namespaces;
pub mod raw;

pub use common::{
    delivered_tokens, lemma_lexer_delivers_concat, lemma_lexer_delivers_push, lexer_delivers, lexer_reads, slice_delivers,
    slice_reads,
    EventMetrics, LexerAdapter, Parse, TokenRead, XMLVersion, XMLNS_XML, XMLNS_XMLNS,
};
pub use namespaces::{
    AttrMap, NamespaceName, NamespaceResolver, RcPtr, ResolvedEvent, ResolvedQName,
};
pub use raw::{RawEvent, RawParser, RawQName};

verus! {

/// The budget of raw events which [`Parser::parse`] takes in one call
/// without emitting an event; a source which delivers more gets an error.
pub const MAX_RAW_EVENTS_PER_CALL: u64 = 0xffff_ffff_ffff_ffff;

/// Restricted XML 1.0 parser with namespace resolution: a [`RawParser`]
/// whose events go through a [`NamespaceResolver`].
///
/// Observing an event from it guarantees that the document has been
/// well-formed and namespace-well-formed up to that point.
#[derive(Debug)]
pub struct Parser {
    inner: RawParser,
    resolver: NamespaceResolver,
}

impl Parser {
    /// The error which poisons the parser, if any: that of the resolver,
    /// else that of the raw parser.
    pub closed spec fn poisoned(&self) -> Option<Error> {
        match self.resolver.poisoned() {
            Some(e) => Some(e),
            None => self.inner.poison(),
        }
    }

    /// Whether a valid end of the document has been reached.
    pub closed spec fn finished(&self) -> bool {
        self.inner.finished()
    }

    /// The raw parser.
    pub closed spec fn raw(&self) -> RawParser {
        self.inner
    }

    /// The namespace resolver.
    pub closed spec fn namespaces(&self) -> NamespaceResolver {
        self.resolver
    }

    /// `new` is this parser after `n` raw events, for which the token
    /// source delivered `got`: each was read by the raw parser
    /// ([`Parse::consumes`]) and taken by the resolver without a resolved
    /// event ([`NamespaceResolver::takes`]).
    pub open spec fn pumps(&self, n: nat, got: Seq<Result<Option<Token>>>, new: Parser) -> bool
        decreases n,
    {
        if n == 0 {
            got.len() == 0 && new == *self
        } else {
            exists|mid: Parser, k: int, ev: RawEvent|
                #![trigger mid.raw().consumes(got.subrange(k, got.len() as int), new.raw(), Ok(Some(ev)))]
                0 <= k <= got.len() && self.pumps((n - 1) as nat, got.subrange(0, k), mid)
                && mid.raw().consumes(got.subrange(k, got.len() as int), new.raw(), Ok(Some(ev)))
                && mid.namespaces().takes(ev@, new.namespaces(), Ok(None))
        }
    }

    proof fn lemma_pumps_step(&self, n: nat, got: Seq<Result<Option<Token>>>, mid: Parser,
        g2: Seq<Result<Option<Token>>>, ev: RawEvent, new: Parser)
        requires
            self.pumps(n, got, mid),
            mid.raw().consumes(g2, new.raw(), Ok(Some(ev))),
            mid.namespaces().takes(ev@, new.namespaces(), Ok(None)),
        ensures
            self.pumps(n + 1, got + g2, new),
    {
        let all = got + g2;
        assert(all.subrange(0, got.len() as int) =~= got);
        assert(all.subrange(got.len() as int, all.len() as int) =~= g2);
    }

    /// What the last raw event of a call of [`Parser::parse`] does, after
    /// the parser got to `self`: the raw parser reads `got` and ends the
    /// document or fails, or it emits a raw event which the resolver turns
    /// into a resolved event or an error; or the call gives up.
    pub open spec fn finishes(&self, got: Seq<Result<Option<Token>>>, new: Parser, res: Result<Option<ResolvedEvent>>) -> bool {
        ||| exists|rres: Result<Option<RawEvent>>| #[trigger] self.raw().consumes(got, new.raw(), rres)
            && new.namespaces() == self.namespaces() && match rres {
                Ok(None) => res == Ok::<Option<ResolvedEvent>, Error>(None),
                Err(e) => res == Err::<Option<ResolvedEvent>, Error>(e),
                Ok(Some(_)) => false,
            }
        ||| exists|ev: RawEvent| #[trigger] self.raw().consumes(got, new.raw(), Ok(Some(ev)))
            && self.namespaces().takes(ev@, new.namespaces(), res) && !(res matches Ok(None))
    }

    /// The call gives up: the raw events which it may take without emitting
    /// one were all taken, and the resolver is poisoned.
    pub open spec fn gives_up(&self, n: nat, got: Seq<Result<Option<Token>>>, new: Parser, res: Result<Option<ResolvedEvent>>) -> bool {
        &&& n == MAX_RAW_EVENTS_PER_CALL
        &&& got.len() == 0
        &&& new.raw() == self.raw()
        &&& res == Err::<Option<ResolvedEvent>, Error>(Error::RestrictedXml("too many raw events without an event"))
        &&& new.namespaces().poisoned() == Some(Error::RestrictedXml("too many raw events without an event"))
    }

    /// Create a new parser.
    pub fn new() -> (r: Self)
        ensures
            r.parser_ok(),
            r.poisoned() is None,
            r.raw().at_start(),
            r.raw().poison() is None,
            r.raw().queue() == Seq::<crate::parser::raw::RawEventView>::empty(),
            !r.finished(),
            r.namespaces().pending_len() == 0,
            r.namespaces().between_elements(),
            r.namespaces().scratch() is None,
            r.namespaces().ns_stack() == Seq::<crate::parser::namespaces::NsFrame>::empty(),
    {
        Parser { inner: RawParser::new(), resolver: NamespaceResolver::new() }
    }
}

impl std::default::Default for Parser {
    fn default() -> (r: Self)
        ensures r.parser_ok(), r.poisoned() is None, r.raw().at_start(), !r.finished(),
    {
        Parser::new()
    }
}

impl Parse for Parser {
    type Output = ResolvedEvent;

    open spec fn parser_ok(&self) -> bool {
        self.raw().wf() && self.namespaces().wf()
    }

    open spec fn failure(&self) -> Option<Error> {
        self.poisoned()
    }

    /// A resolver which has failed repeats its error; otherwise raw events
    /// are read ([`Parser::pumps`]) until one leads to a resolved event, the
    /// end of the document or an error ([`Parser::finishes`]).
    open spec fn consumes(&self, got: Seq<Result<Option<Token>>>, new: Parser, res: Result<Option<ResolvedEvent>>) -> bool {
        match self.namespaces().poisoned() {
            Some(e) => got.len() == 0 && new == *self && res == Err::<Option<ResolvedEvent>, Error>(e),
            None => exists|n: nat, g1: Seq<Result<Option<Token>>>, g2: Seq<Result<Option<Token>>>, mid: Parser|
                #![trigger self.pumps(n, g1, mid), mid.finishes(g2, new, res)]
                #![trigger self.pumps(n, g1, mid), mid.gives_up(n, g2, new, res)]
                self.pumps(n, g1, mid) && got == g1 + g2 && (mid.finishes(g2, new, res) || mid.gives_up(n, g2, new, res)),
        }
    }

    /// Parse a single namespace-resolved event using tokens from `r`.
    ///
    /// After the first error which is not an I/O error of the source, the
    /// parser is poisoned and returns that error on every call; I/O errors
    /// are passed through and leave the parser as it was.
    fn parse<R: TokenRead>(&mut self, r: &mut R) -> (res: Result<Option<ResolvedEvent>>)
        ensures
            old(self).poisoned() matches Some(e) ==> res == Err::<Option<ResolvedEvent>, Error>(e)
                && *final(self) == *old(self),
            old(self).poisoned() is None ==> match res {
                Ok(None) => final(self).finished() && final(self).poisoned() is None,
                Ok(Some(_)) => final(self).poisoned() is None,
                Err(Error::IO(_)) => final(self).poisoned() is None,
                Err(e) => final(self).poisoned() == Some(e),
            },
    {
        match self.resolver.process_poison() {
            Some(e) => {
                proof {
                    assert(old(r).delivered() + Seq::<Result<Option<Token>>>::empty() =~= old(r).delivered());
                    assert(old(self).consumes(Seq::empty(), *self, Err(e)));
                }
                return Err(e);
            },
            None => {},
        }
        let mut budget: u64 = MAX_RAW_EVENTS_PER_CALL;
        let ghost mut n: nat = 0;
        let ghost mut got: Seq<Result<Option<Token>>> = Seq::empty();
        proof {
            assert(old(self).pumps(0, got, *self));
            assert(old(r).delivered() + got =~= old(r).delivered());
        }
        loop
            invariant
                self.raw().wf(),
                self.namespaces().wf(),
                self.namespaces().poisoned() is None,
                r.source_ok(),
                r.origin() == old(r).origin(),
                r.origin_lexer() == old(r).origin_lexer(),
                budget == MAX_RAW_EVENTS_PER_CALL ==> *self == *old(self) && *r == *old(r),
                budget < MAX_RAW_EVENTS_PER_CALL ==> self.raw().poison() is None,
                budget < MAX_RAW_EVENTS_PER_CALL ==> old(self).raw().poison() is None,
                old(self).namespaces().poisoned() is None,
                old(r).keeps_log() ==> old(self).pumps(n, got, *self),
                n + budget == MAX_RAW_EVENTS_PER_CALL,
                old(r).keeps_log() ==> r.keeps_log() && r.delivered() == old(r).delivered() + got,
            decreases budget,
        {
            let ghost mid = *self;
            let ghost log0 = r.delivered();
            if budget == 0 {
                let e = self.resolver.give_up();
                proof {
                    if old(r).keeps_log() {
                        assert(got + Seq::<Result<Option<Token>>>::empty() =~= got);
                        assert(mid.gives_up(n, Seq::empty(), *self, Err(e)));
                        assert(old(self).consumes(got, *self, Err(e)));
                    }
                }
                return Err(e);
            }
            budget = budget - 1;
            let pres = self.inner.parse(r);
            let ghost g2 = if old(r).keeps_log() {
                choose|g: Seq<Result<Option<Token>>>| r.delivered() == log0 + g && #[trigger] mid.raw().consumes(g, self.raw(), pres)
            } else {
                Seq::<Result<Option<Token>>>::empty()
            };
            proof {
                if old(r).keeps_log() {
                    assert(r.delivered() =~= old(r).delivered() + (got + g2));
                }
            }
            let pev = match pres {
                Ok(None) => {
                    proof {
                        if old(r).keeps_log() {
                            assert(mid.finishes(g2, *self, Ok(None)));
                            assert(old(self).consumes(got + g2, *self, Ok(None)));
                        }
                    }
                    return Ok(None);
                },
                Err(e) => {
                    proof {
                        if old(r).keeps_log() {
                            assert(mid.finishes(g2, *self, Err(e)));
                            assert(old(self).consumes(got + g2, *self, Err(e)));
                        }
                    }
                    return Err(e);
                },
                Ok(Some(pev)) => pev,
            };
            let ghost gpev = pev;
            let ghost raw_after = self.inner;
            let pr = self.resolver.process_event(pev);
            match pr {
                Err(e) => {
                    proof {
                        if old(r).keeps_log() {
                            assert(mid.raw().consumes(g2, self.raw(), Ok(Some(gpev))));
                            assert(mid.finishes(g2, *self, Err(e)));
                            assert(old(self).consumes(got + g2, *self, Err(e)));
                        }
                    }
                    return Err(e);
                },
                Ok(Some(v)) => {
                    proof {
                        if old(r).keeps_log() {
                            assert(mid.raw().consumes(g2, self.raw(), Ok(Some(gpev))));
                            assert(mid.finishes(g2, *self, Ok(Some(v))));
                            assert(old(self).consumes(got + g2, *self, Ok(Some(v))));
                        }
                    }
                    return Ok(Some(v));
                },
                Ok(None) => {},
            }
            proof {
                if old(r).keeps_log() {
                    assert(self.raw() == raw_after);
                    assert(mid.raw().consumes(g2, self.raw(), Ok(Some(gpev))));
                    assert(mid.namespaces().takes(gpev@, self.namespaces(), Ok(None)));
                    old(self).lemma_pumps_step(n, got, mid, g2, gpev, *self);

                }
                n = n + 1;
                got = got + g2;
            }
        }
    }

    /// Release all temporary buffers.
    fn release_temporaries(&mut self)
        ensures
            old(self).raw().same_content(&final(self).raw()),
            final(self).namespaces() == old(self).namespaces(),
            final(self).poisoned() == old(self).poisoned(),
            final(self).finished() == old(self).finished(),
    {
        self.inner.release_temporaries();
    }
}

/// Token source over a byte slice: a [`Lexer`] which is fed the slice,
/// with a flag which says whether its end is the end of the document.
pub struct BufferLexerAdapter<'a> {
    lexer: Lexer,
    buf: &'a [u8],
    eof: bool,
    origin: Ghost<Seq<u8>>,
    start: Ghost<Lexer>,
    log: Ghost<Seq<Result<Option<Token>>>>,
}

impl<'a> BufferLexerAdapter<'a> {
    /// The bytes which have not been lexed yet.
    pub closed spec fn remaining(&self) -> Seq<u8> {
        self.buf@
    }

    /// The wrapped lexer.
    pub closed spec fn lexer(&self) -> Lexer {
        self.lexer
    }

    /// Whether the end of the buffer is the end of the document.
    pub closed spec fn at_eof(&self) -> bool {
        self.eof
    }

    /// The lexer with which the adapter was created.
    pub closed spec fn start_lexer(&self) -> Lexer {
        self.start@
    }


    /// Wrap a lexer and a buffer.
    pub fn new(lexer: Lexer, buf: &'a [u8], eof: bool) -> (r: Self)
        requires lexer.wf(),
        ensures
            r.source_ok(),
            r.remaining() == buf@,
            r.origin() == buf@,
            r.lexer() == lexer,
            r.start_lexer() == lexer,
            r.at_eof() == eof,
            r.keeps_log(),
            r.delivered() == Seq::<Result<Option<Token>>>::empty(),
    {
        let r = BufferLexerAdapter { lexer, buf, eof, origin: Ghost(buf@), start: Ghost(lexer), log: Ghost(Seq::empty()) };
        assert(buf@ =~= buf@.subrange(0, buf@.len() as int));
        r
    }

    /// Return the lexer and the bytes which have not been lexed yet.
    pub fn into_inner(self) -> (r: (Lexer, &'a [u8]))
        requires self.source_ok(),
        ensures
            r.0.wf(),
            r.0 == self.lexer(),
            r.1@ == self.remaining(),
            self.origin().len() >= r.1@.len(),
            r.1@ == self.origin().subrange(self.origin().len() - r.1@.len(), self.origin().len() as int),
            lexer_delivers(self.start_lexer(), self.at_eof(), self.origin(), self.delivered(), r.0, r.1@),
    {
        (self.lexer, self.buf)
    }
}

impl<'a> TokenRead for BufferLexerAdapter<'a> {
    /// The bytes with which the adapter was created.
    closed spec fn origin(&self) -> Seq<u8> {
        self.origin@
    }

    open spec fn source_ok(&self) -> bool {
        &&& self.lexer().wf()
        &&& self.origin().len() >= self.remaining().len()
        &&& self.remaining() == self.origin().subrange(
            self.origin().len() - self.remaining().len(), self.origin().len() as int)
        &&& lexer_delivers(self.start_lexer(), self.at_eof(), self.origin(), self.delivered(), self.lexer(),
            self.remaining())
    }

    open spec fn keeps_log(&self) -> bool {
        true
    }

    /// The lexer and the flag with which the adapter was created.
    open spec fn origin_lexer(&self) -> Option<(Lexer, bool)> {
        Some((self.start_lexer(), self.at_eof()))
    }

    /// The results of the calls of `read` so far.
    closed spec fn delivered(&self) -> Seq<Result<Option<Token>>> {
        self.log@
    }

    /// Lex the next token from the remaining bytes, as
    /// [`Lexer::lex_bytes`] does with the end-of-document flag of the
    /// adapter.
    fn read(&mut self) -> (r: Result<Option<Token>>)
        ensures
            final(self).at_eof() == old(self).at_eof(),
            final(self).lexer().options() == old(self).lexer().options(),
            final(self).remaining().len() <= old(self).remaining().len(),
            final(self).remaining() == old(self).remaining().subrange(
                old(self).remaining().len() - final(self).remaining().len(), old(self).remaining().len() as int),
            final(self).lexer().spec_ctr() == ctr_advance(old(self).lexer().spec_ctr(),
                (old(self).remaining().len() - final(self).remaining().len()) as nat),
            old(self).lexer().cached_error() matches Some(e) ==> r == Err::<Option<Token>, Error>(e)
                && final(self).remaining() == old(self).remaining()
                && final(self).lexer().cached_error() == Some(e),
            old(self).lexer().cached_error() is None && old(self).lexer().at_end() ==> r == Ok::<Option<Token>, Error>(None)
                && final(self).remaining() == old(self).remaining() && final(self).lexer().at_end(),
            old(self).lexer().cached_error() is None ==> match r {
                Ok(None) => final(self).lexer().at_end() && final(self).lexer().cached_error() is None,
                Ok(Some(_)) => final(self).lexer().cached_error() is None,
                Err(Error::IO(w)) => w.would_block() && !old(self).at_eof() && final(self).remaining().len() == 0
                    && final(self).lexer().cached_error() is None,
                Err(e) => final(self).lexer().cached_error() == Some(e),
            },
            final(self).start_lexer() == old(self).start_lexer(),
            lexer_reads(old(self).lexer(), old(self).at_eof(), old(self).remaining(), final(self).lexer(),
                final(self).remaining(), r),
    {
        let ghost before = self.buf@;
        let ghost l0 = self.lexer;
        let res = self.lexer.lex_bytes(&mut self.buf, self.eof);
        proof {
            let o = self.origin@;
            assert(self.buf@ =~= o.subrange(o.len() - self.buf@.len(), o.len() as int));
            assert(lexer_reads(l0, self.eof, before, self.lexer, self.buf@, res));
            lemma_lexer_delivers_push(self.start@, self.eof, o, self.log@, l0, before, self.lexer, self.buf@, res);
        }
        self.log = Ghost(self.log@.push(res));
        res
    }
}

} // verus!
