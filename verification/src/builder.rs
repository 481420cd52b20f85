//! The builder: a dialect, how records are interpreted, which backends run the
//! parse, and what resources they may use.

use core::marker::PhantomData;

use vstd::prelude::*;

use crate::config::{
    default_config, Config, IoBackend, ParserBackend, QuoteHandling, RecordTerminator,
};
use crate::error::Error;
use crate::parser::api::{
    build_fault, probe_of, try_from_config, Arity, Bytes, FieldMode, Parser, Text, Variadic,
};
use crate::parser::chunk::ChunkParser;
use crate::parser::dfa::DfaChunkParser;
use crate::parser::simd::{simd_objection, SimdChunkParser};
use crate::scheduler::resolve::{bitmask_reads, what_the_bitmask_parser_is_refused_for};
use crate::sys::Host;

verus! {

/// A CSV parser builder.
pub struct ParserBuilder<Mode = Arity, Encoding: ?Sized = Text> {
    config: Config,
    mode: PhantomData<Mode>,
    encoding: PhantomData<Encoding>,
}

impl<Mode, Encoding: ?Sized> ParserBuilder<Mode, Encoding> {
    /// The configuration so far.
    pub closed spec fn config(self) -> Config {
        self.config
    }

    /// The number of fields is not part of what is built: it comes from the callback,
    /// or is left open.
    #[verifier::type_invariant]
    closed spec fn inv(self) -> bool {
        self.config.field_count is None
    }
}

impl<Mode, Encoding: ?Sized> Clone for ParserBuilder<Mode, Encoding> {
    fn clone(&self) -> (r: Self)
        ensures
            r.config() == self.config(),
    {
        proof {
            use_type_invariant(self);
        }
        ParserBuilder { config: self.config, mode: PhantomData, encoding: PhantomData }
    }
}

impl Default for ParserBuilder<Arity, Text> {
    fn default() -> (r: Self)
        ensures
            r.config() == default_config(),
    {
        ParserBuilder { config: Config::default(), mode: PhantomData, encoding: PhantomData }
    }
}

impl ParserBuilder<Arity, Text> {
    /// Start from the default configuration.
    pub fn new() -> (r: Self)
        ensures
            r.config() == default_config(),
    {
        Self::default()
    }
}

impl<Encoding: ?Sized> ParserBuilder<Arity, Encoding> {
    /// Switch to variadic mode: fields are handed to the callback as a slice `&[T]`
    /// instead of a fixed-size array `[T; N]`.
    ///
    /// The field count is not fixed beforehand. If field counts may vary between
    /// records, use [`ParserBuilder::flexible`] to say so.
    pub fn variadic(self) -> (r: ParserBuilder<Variadic, Encoding>)
        ensures
            r.config() == self.config(),
    {
        proof {
            use_type_invariant(&self);
        }
        ParserBuilder { config: self.config, mode: PhantomData, encoding: PhantomData }
    }

    /// Switch to flexible mode: fields are handed to the callback as a slice `&[T]`,
    /// and records are allowed to have different numbers of fields.
    ///
    /// Equivalent to `.variadic()` with field-count variation explicitly permitted.
    ///
    /// With the field count unconstrained, the accumulator is the only oracle a
    /// speculative parse is checked against. An accumulation function that accepts
    /// any record may lead to expensive sequential reparsing at merge time.
    pub fn flexible(self) -> (r: ParserBuilder<Variadic, Encoding>)
        ensures
            r.config() == (Config { flexible: true, ..self.config() }),
    {
        proof {
            use_type_invariant(&self);
        }
        let mut config = self.config;
        config.flexible = true;
        ParserBuilder { config, mode: PhantomData, encoding: PhantomData }
    }
}

impl<Mode> ParserBuilder<Mode, Text> {
    /// Use raw byte fields instead of UTF-8 validated strings.
    ///
    /// Fields are handed out as `&[u8]` instead of `&str`,
    /// skipping UTF-8 validation. Use this for non-UTF-8 encodings
    /// like Latin-1 or Windows-1252.
    pub fn bytes(self) -> (r: ParserBuilder<Mode, Bytes>)
        ensures
            r.config() == self.config(),
    {
        proof {
            use_type_invariant(&self);
        }
        ParserBuilder { config: self.config, mode: PhantomData, encoding: PhantomData }
    }
}

impl<Mode: FieldMode> ParserBuilder<Mode, Text> {
    /// Validate the config and build a parser.
    ///
    /// Returns an error if the configuration is invalid, or if a control
    /// byte is non-ASCII — that could split a multi-byte UTF-8 sequence
    /// across two fields. Use [`Self::bytes`] to parse such dialects.
    pub fn try_build(self) -> (r: crate::Result<Parser<Mode, Text>>)
        ensures
            match build_fault::<Mode, Text>(self.config()) {
                None => r matches Ok(p) && p.wf() && p.config() == self.config() && p.host()
                    == Host::unknown() && p.config().field_count is None,
                Some(why) => r matches Err(Error::InvalidConfig(m)) && m@ == why,
            },
    {
        proof {
            use_type_invariant(&self);
        }
        try_from_config::<Mode, Text>(self.config)
    }

    /// Build a parser from a config that is known to be valid.
    ///
    /// Use [`Self::try_build`] if the config might come from untrusted input.
    pub fn build(self) -> (r: Parser<Mode, Text>)
        requires
            build_fault::<Mode, Text>(self.config()) is None,
        ensures
            r.wf(),
            r.config() == self.config(),
            r.config().field_count is None,
            r.host() == Host::unknown(),
    {
        self.try_build().unwrap()
    }
}

impl<Mode: FieldMode> ParserBuilder<Mode, Bytes> {
    /// Validate the config and build a parser.
    ///
    /// Returns an error if the configuration is invalid. Unlike text mode,
    /// non-ASCII control bytes are allowed.
    pub fn try_build(self) -> (r: crate::Result<Parser<Mode, Bytes>>)
        ensures
            match build_fault::<Mode, Bytes>(self.config()) {
                None => r matches Ok(p) && p.wf() && p.config() == self.config() && p.host()
                    == Host::unknown() && p.config().field_count is None,
                Some(why) => r matches Err(Error::InvalidConfig(m)) && m@ == why,
            },
    {
        proof {
            use_type_invariant(&self);
        }
        try_from_config::<Mode, Bytes>(self.config)
    }

    /// Build a parser from a config that is known to be valid.
    ///
    /// Use [`Self::try_build`] if the config might come from untrusted input.
    pub fn build(self) -> (r: Parser<Mode, Bytes>)
        requires
            build_fault::<Mode, Bytes>(self.config()) is None,
        ensures
            r.wf(),
            r.config() == self.config(),
            r.config().field_count is None,
            r.host() == Host::unknown(),
    {
        self.try_build().unwrap()
    }
}

/// Why a backend cannot read records of a dialect, if it cannot; where the number
/// of fields is not known yet, one field is as good as any.
pub open spec fn backend_objection(c: Config, backend: ParserBackend) -> Option<Seq<char>> {
    match backend {
        ParserBackend::Simd => simd_objection(probe_of(c, true)),
        _ => None,
    }
}

/// Dialect: how the bytes of the file spell out fields and records.
impl<Mode, Encoding: ?Sized> ParserBuilder<Mode, Encoding> {
    /// Byte that separates fields within a record (default: `b','`).
    ///
    /// Must differ from every other control byte. In text mode it must
    /// also be ASCII — use [`ParserBuilder::bytes`] for a non-UTF-8 dialect.
    pub fn delimiter(self, delimiter: u8) -> (r: Self)
        ensures
            r.config() == (Config { delimiter, ..self.config() }),
    {
        proof {
            use_type_invariant(&self);
        }
        let mut config = self.config;
        config.delimiter = delimiter;
        ParserBuilder { config, mode: PhantomData, encoding: PhantomData }
    }

    /// Byte sequence that ends a record (default: `RecordTerminator::CRLF`).
    ///
    /// `CRLF` also accepts bare `\r` and `\n`; use
    /// [`RecordTerminator::Byte`] to pin a single terminator byte.
    pub fn terminator(self, terminator: RecordTerminator) -> (r: Self)
        ensures
            r.config() == (Config { terminator, ..self.config() }),
    {
        proof {
            use_type_invariant(&self);
        }
        let mut config = self.config;
        config.terminator = terminator;
        ParserBuilder { config, mode: PhantomData, encoding: PhantomData }
    }

    /// Byte that quotes a field (default: `Some(b'"')`).
    ///
    /// `None` disables quoting entirely, so delimiters and terminators
    /// are always structural. Setting this to `None` while an escape byte
    /// is configured fails at `try_build`.
    pub fn quote(self, quote: Option<u8>) -> (r: Self)
        ensures
            r.config() == (Config { quote, ..self.config() }),
    {
        proof {
            use_type_invariant(&self);
        }
        let mut config = self.config;
        config.quote = quote;
        ParserBuilder { config, mode: PhantomData, encoding: PhantomData }
    }

    /// Byte that escapes the next character inside a quoted field
    /// (default: `Some(b'"')`, i.e. RFC 4180 doubled quotes).
    ///
    /// Escape bytes are removed from the field. Requires
    /// [`ParserBuilder::quote`] to be set; `None` means no escaping.
    pub fn escape(self, escape: Option<u8>) -> (r: Self)
        ensures
            r.config() == (Config { escape, ..self.config() }),
    {
        proof {
            use_type_invariant(&self);
        }
        let mut config = self.config;
        config.escape = escape;
        ParserBuilder { config, mode: PhantomData, encoding: PhantomData }
    }

    /// Set how quote characters are handled (default: `QuoteHandling::Toggle`).
    ///
    /// The bitmask parser backend supports only `QuoteHandling::Toggle`.
    /// Pairing `Literal` or `Strict` with an
    /// explicit `parser_backend(ParserBackend::Simd)` will fail at
    /// `try_build` with `Error::InvalidConfig`.
    pub fn quote_handling(self, handling: QuoteHandling) -> (r: Self)
        ensures
            r.config() == (Config { quote_handling: handling, ..self.config() }),
    {
        proof {
            use_type_invariant(&self);
        }
        let mut config = self.config;
        config.quote_handling = handling;
        ParserBuilder { config, mode: PhantomData, encoding: PhantomData }
    }

    /// Byte that marks a comment line (default: `None`).
    ///
    /// When set, a line starting with this byte is ignored.
    pub fn comment(self, comment: Option<u8>) -> (r: Self)
        ensures
            r.config() == (Config { comment, ..self.config() }),
    {
        proof {
            use_type_invariant(&self);
        }
        let mut config = self.config;
        config.comment = comment;
        ParserBuilder { config, mode: PhantomData, encoding: PhantomData }
    }
}

/// Interpretation: what the parser does with the records it finds.
///
/// Blank lines are skipped rather than emitted: a run of record
/// terminators yields no records.
impl<Mode, Encoding: ?Sized> ParserBuilder<Mode, Encoding> {
    /// Whether the first record is a header row (default: `true`).
    ///
    /// Headers are skipped just like comment lines if enabled.
    pub fn has_headers(self, has_headers: bool) -> (r: Self)
        ensures
            r.config() == (Config { has_headers, ..self.config() }),
    {
        proof {
            use_type_invariant(&self);
        }
        let mut config = self.config;
        config.has_headers = has_headers;
        ParserBuilder { config, mode: PhantomData, encoding: PhantomData }
    }

    /// Strip leading/trailing ASCII whitespace (`\t\n\v\f\r `) from each
    /// field before it is handed to the accumulator (default: `false`).
    ///
    /// The bitmask parser backend does not support
    /// trimming. Pairing `trim(true)` with an explicit
    /// `parser_backend(ParserBackend::Simd)` will fail at `try_build`
    /// with `Error::InvalidConfig`.
    pub fn trim(self, trim: bool) -> (r: Self)
        ensures
            r.config() == (Config { trim, ..self.config() }),
    {
        proof {
            use_type_invariant(&self);
        }
        let mut config = self.config;
        config.trim = trim;
        ParserBuilder { config, mode: PhantomData, encoding: PhantomData }
    }
}

/// Backends: which chunk parser and I/O strategy run the parse.
impl<Mode, Encoding: ?Sized> ParserBuilder<Mode, Encoding> {
    /// Set the chunk parser backend (default: `ParserBackend::Auto`).
    ///
    /// `Auto` selects the fastest parser that supports the current config.
    /// `Dfa` forces the DFA parser (works with any config). `Simd` forces
    /// the bitmask parser (errors if the config is unsupported).
    ///
    /// `Simd` rejects `trim(true)`,
    /// `QuoteHandling::{Literal, Strict}`, comments, variadic/flexible
    /// mode, an escape byte distinct from the quote, and records wider
    /// than 63 fields. The reason is reported via `Error::InvalidConfig`
    /// at `try_build` (a field count over the limit: when the parse is run). Use `Auto` to fall back to the DFA parser
    /// silently when the config rules the bitmask parser out.
    pub fn parser_backend(self, backend: ParserBackend) -> (r: Self)
        ensures
            r.config() == (Config { parser_backend: backend, ..self.config() }),
    {
        proof {
            use_type_invariant(&self);
        }
        let mut config = self.config;
        config.parser_backend = backend;
        ParserBuilder { config, mode: PhantomData, encoding: PhantomData }
    }

    /// Set the I/O backend used to read chunks (default: `IoBackend::Auto`).
    ///
    /// `Auto` picks `InMemory` for files up to 1 MiB and `RingBuf` above
    /// that. See [`IoBackend`] for the trade-offs of each backend.
    pub fn io_backend(self, backend: IoBackend) -> (r: Self)
        ensures
            r.config() == (Config { io_backend: backend, ..self.config() }),
    {
        proof {
            use_type_invariant(&self);
        }
        let mut config = self.config;
        config.io_backend = backend;
        ParserBuilder { config, mode: PhantomData, encoding: PhantomData }
    }

    /// Check whether a specific chunk-parser backend can handle the
    /// current configuration.
    pub fn supports_backend(&self, backend: ParserBackend) -> (r: Result<(), &'static str>)
        ensures
            match backend_objection(self.config(), backend) {
                None => r is Ok,
                Some(why) => r matches Err(m) && m@ == why,
            },
    {
        match backend {
            ParserBackend::Auto => Ok(()),
            ParserBackend::Dfa => DfaChunkParser::supports(&self.config),
            ParserBackend::Simd => {
                // `field_count` is only known at `parse::<N>` time
                let mut probe = self.config;
                if probe.field_count.is_none() {
                    probe.field_count = Some(1);
                }
                SimdChunkParser::supports(&probe)
            },
        }
    }
}

/// Resources: how much CPU and memory the parse may use.
impl<Mode, Encoding: ?Sized> ParserBuilder<Mode, Encoding> {
    /// Upper bound on worker threads (default: auto).
    ///
    /// `0` means auto-detect from available parallelism at parse time.
    pub fn concurrency(self, concurrency: usize) -> (r: Self)
        ensures
            r.config() == (Config { concurrency, ..self.config() }),
    {
        proof {
            use_type_invariant(&self);
        }
        let mut config = self.config;
        config.concurrency = concurrency;
        ParserBuilder { config, mode: PhantomData, encoding: PhantomData }
    }

    /// Size of work-stealing units handed to worker threads (default: auto).
    ///
    /// `0` means auto-detect from the parser backend at parse time
    /// (currently 256 KiB for the DFA parser, 1 MiB for the bitmask parser).
    pub fn chunk_size(self, chunk_size: usize) -> (r: Self)
        ensures
            r.config() == (Config { chunk_size, ..self.config() }),
    {
        proof {
            use_type_invariant(&self);
        }
        let mut config = self.config;
        config.chunk_size = chunk_size;
        ParserBuilder { config, mode: PhantomData, encoding: PhantomData }
    }

    /// Total I/O buffer memory the parse may hold across all worker
    /// threads (default: auto).
    ///
    /// - `Some(0)` resolves at parse time to 50% of physical RAM.
    /// - `Some(n)` with `n > 0` caps the parse at `n` bytes in total.
    /// - `None` disables the cap entirely. Use only with trusted input.
    ///
    /// Bounds the ring buffer only. Mmap is governed by the OS page
    /// cache, and the in-memory backend's footprint is the file size
    /// rather than a buffer that grows.
    pub fn io_buffer_limit(self, limit: Option<usize>) -> (r: Self)
        ensures
            r.config() == (Config { io_buffer_limit: limit, ..self.config() }),
    {
        proof {
            use_type_invariant(&self);
        }
        let mut config = self.config;
        config.io_buffer_limit = limit;
        ParserBuilder { config, mode: PhantomData, encoding: PhantomData }
    }
}

/// The table-driven parser reads everything; the bitmask parser what it can, for some number
/// of fields if none is asked for.
pub proof fn what_a_backend_supports(c: Config)
    ensures
        backend_objection(c, ParserBackend::Auto) is None,
        backend_objection(c, ParserBackend::Dfa) is None,
        backend_objection(c, ParserBackend::Simd) is None <==> bitmask_reads(
            Config {
                field_count: Some(
                    match c.field_count {
                        Some(n) => n,
                        None => 1,
                    },
                ),
                ..c
            },
        ),
        c.field_count is Some ==> backend_objection(c, ParserBackend::Simd) == simd_objection(c),
{
    what_the_bitmask_parser_is_refused_for(probe_of(c, true));
}

} // verus!
