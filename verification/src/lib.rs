//! A fast, chunked CSV parser.
//!
//! An input is split into chunks that can be parsed independently, each
//! into a state of its own, and a merge function folds the per-chunk
//! states into the result. What a dialect means is written down in
//! [`parser::grammar`]; that the chunks together give what one pass over
//! the input gives, wherever they are cut, in [`scheduler::order`] and
//! [`scheduler::laws`].
//!
//! [`Parser::parse_slice`] parses bytes already in memory, [`Parser::parse`]
//! a file, and [`Parser::parse_stream`] is the sequential fallback for sources
//! without random access. [`ParserBuilder`] configures the dialect
//! (delimiter, quoting, comments), the output mode ([`Variadic`] for
//! slices instead of fixed-size arrays, [`Bytes`] to skip UTF-8
//! validation) and the execution and I/O backends.
//!
//! # Side effects
//!
//! A chunk's starting state — inside a quoted field or outside it — is
//! a guess, and a wrong one is retried, so the accumulator may run over
//! a chunk more than once. A wrong guess cuts the same bytes into
//! different fields and records; that pass is dropped at merge time,
//! and a chunk that must be reparsed accumulates a second time. Only
//! what `merge` folds matches the file; an effect the accumulator has
//! outside the state it is handed — a print, a shared counter — is not
//! undone. A one-chunk input never speculates, so small tests hide
//! this.
//! [`Parser::parse_stream`] is sequential and sees every record once.

pub mod builder;
pub mod config;
pub mod error;
pub mod io;
pub mod parser;
pub mod scheduler;
pub mod sys;

use vstd::prelude::*;

pub use crate::builder::ParserBuilder;
pub use crate::config::{IoBackend, ParserBackend, QuoteHandling, RecordTerminator};
pub use crate::error::{Error, Position};
pub use crate::io::ringbuf::settings::RingBufSettings;
pub use crate::parser::api::{Arity, Bytes, Parser, Text, Variadic};

verus! {

/// A `Result` with this crate's [`Error`] type.
pub type Result<T> = core::result::Result<T, error::Error>;

} // verus!
