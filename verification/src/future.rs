//! The state of an asynchronous driver: a byte source, a lexer and a
//! parser, and the step which feeds available bytes to them. The source is
//! polled by the caller.
use vstd::prelude::*;

use crate::error::{Error, Result};
use crate::lexer::{Lexer, LexerOptions, Token};
use crate::parser::{lexer_delivers, BufferLexerAdapter, Parse, Parser, TokenRead};

verus! {

/// Whether a step produced a result or has to wait for more data.
pub enum Progress<T> {
    /// More data is needed; the source has to be polled again.
    Pending,
    /// The step is complete.
    Ready(T),
}

/// Asynchronous driver for parsers: it holds a byte source, which its user
/// polls, and hands the bytes which became available to lexer and parser.
pub struct AsyncDriver<T, P: Parse> {
    inner: T,
    lexer: Lexer,
    parser: P,
}

impl<T, P: Parse> AsyncDriver<T, P> {
    /// The byte source.
    pub closed spec fn source(&self) -> T {
        self.inner
    }

    /// The lexer.
    pub closed spec fn lexer(&self) -> Lexer {
        self.lexer
    }

    /// The parser.
    pub closed spec fn parser(&self) -> P {
        self.parser
    }

    /// Whether lexer and parser are consistent.
    pub open spec fn driver_ok(&self) -> bool {
        self.lexer().wf() && self.parser().parser_ok()
    }

    /// Compose a driver from a byte source, a lexer and a parser.
    pub fn wrap(inner: T, lexer: Lexer, parser: P) -> (r: Self)
        ensures r.source() == inner, r.lexer() == lexer, r.parser() == parser,
    {
        AsyncDriver { inner, lexer, parser }
    }

    /// Decompose the driver.
    pub fn into_inner(self) -> (r: (T, Lexer, P))
        ensures r.0 == self.source(), r.1 == self.lexer(), r.2 == self.parser(),
    {
        (self.inner, self.lexer, self.parser)
    }

    /// Access the byte source.
    pub fn get_inner(&self) -> (r: &T)
        ensures *r == self.source(),
    {
        &self.inner
    }

    /// Access the byte source, mutably.
    pub fn get_inner_mut(&mut self) -> (r: &mut T)
        ensures
            *r == old(self).source(),
            final(self).source() == *final(r),
            final(self).lexer() == old(self).lexer(),
            final(self).parser() == old(self).parser(),
    {
        &mut self.inner
    }

    /// Access the lexer.
    pub fn get_lexer(&self) -> (r: &Lexer)
        ensures *r == self.lexer(),
    {
        &self.lexer
    }

    /// Access the lexer, mutably.
    pub fn get_lexer_mut(&mut self) -> (r: &mut Lexer)
        ensures
            *r == old(self).lexer(),
            final(self).lexer() == *final(r),
            final(self).source() == old(self).source(),
            final(self).parser() == old(self).parser(),
    {
        &mut self.lexer
    }

    /// Access the parser.
    pub fn get_parser(&self) -> (r: &P)
        ensures *r == self.parser(),
    {
        &self.parser
    }

    /// Access the parser, mutably.
    pub fn get_parser_mut(&mut self) -> (r: &mut P)
        ensures
            *r == old(self).parser(),
            final(self).parser() == *final(r),
            final(self).source() == old(self).source(),
            final(self).lexer() == old(self).lexer(),
    {
        &mut self.parser
    }

    /// Release all temporary buffers of lexer and parser.
    pub fn release_temporaries(&mut self)
        requires old(self).driver_ok(),
        ensures
            final(self).driver_ok(),
            old(self).lexer().same_content(&final(self).lexer()),
            final(self).parser().failure() == old(self).parser().failure(),
            final(self).source() == old(self).source(),
    {
        self.lexer.release_temporaries();
        self.parser.release_temporaries();
    }

    /// Feed the bytes which the source made available to lexer and parser.
    ///
    /// `may_eof` says whether the source reported its state: then an empty
    /// `buf` is the end of the document. Returns the number of bytes used,
    /// which the source has to consume, and the outcome: `Pending` where the
    /// parser would block for more data, else its result.
    pub fn parse_step(&mut self, buf: &[u8], may_eof: bool) -> (r: (usize, Progress<Result<Option<P::Output>>>))
        requires old(self).driver_ok(),
        ensures
            final(self).driver_ok(),
            r.0 <= buf@.len(),
            final(self).source() == old(self).source(),
            r.1 matches Progress::Ready(Err(Error::IO(w))) ==> !w.would_block(),
            old(self).parser().failure() matches Some(e) ==> *final(self) == *old(self) && r.0 == 0
                && (!(e is IO) ==> r.1 == Progress::<Result<Option<P::Output>>>::Ready(Err(e))),
            old(self).parser().failure() is None ==> match r.1 {
                Progress::Ready(Err(Error::IO(_))) => final(self).parser().failure() is None,
                Progress::Ready(Err(e)) => final(self).parser().failure() == Some(e),
                _ => final(self).parser().failure() is None,
            },
            exists|got: Seq<Result<Option<Token>>>, res: Result<Option<P::Output>>|
                lexer_delivers(old(self).lexer(), may_eof && buf@.len() == 0, buf@, got, final(self).lexer(),
                    buf@.subrange(r.0 as int, buf@.len() as int))
                && #[trigger] old(self).parser().consumes(got, final(self).parser(), res)
                && r.1 == match res {
                    Err(Error::IO(w)) => if w.would_block() {
                        Progress::<Result<Option<P::Output>>>::Pending
                    } else {
                        Progress::Ready(Err(Error::IO(w)))
                    },
                    other => Progress::Ready(other),
                },
    {
        let mut lexer = Lexer::new();
        std::mem::swap(&mut lexer, &mut self.lexer);
        let eof = may_eof && buf.len() == 0;
        let mut src = BufferLexerAdapter::new(lexer, buf, eof);
        let ghost src0 = src;
        let result = self.parser.parse(&mut src);
        proof {
            let got = choose|got: Seq<Result<Option<Token>>>| src.delivered() == src0.delivered() + got
                && #[trigger] old(self).parser().consumes(got, self.parser, result);
            assert(src.delivered() =~= got);
        }
        let (lexer, rest) = src.into_inner();
        self.lexer = lexer;
        let read = buf.len() - rest.len();
        match result {
            Err(Error::IO(ioerr)) => {
                if ioerr.is_would_block() {
                    (read, Progress::Pending)
                } else {
                    (read, Progress::Ready(Err(Error::IO(ioerr))))
                }
            },
            other => (read, Progress::Ready(other)),
        }
    }
}

impl<T> AsyncDriver<T, Parser> {
    /// Create a driver with default lexer options around a byte source.
    pub fn new(inner: T) -> (r: Self)
        ensures r.driver_ok(), r.source() == inner, r.parser().poisoned() is None,
    {
        AsyncDriver::wrap(inner, Lexer::new(), Parser::new())
    }

    /// Create a driver whose lexer has the given options.
    pub fn with_options(inner: T, options: LexerOptions) -> (r: Self)
        requires 1 <= options.max_token_length <= isize::MAX,
        ensures r.driver_ok(), r.source() == inner, r.lexer().options() == options,
            r.parser().poisoned() is None,
    {
        AsyncDriver::wrap(inner, Lexer::with_options(options), Parser::new())
    }
}

/// Asynchronous parsing with namespace resolution: an [`AsyncDriver`]
/// around the default [`Parser`].
pub type AsyncParser<T> = AsyncDriver<T, Parser>;

} // verus!
