//! The scheduler: picks the parser and the I/O for an input, and runs the parse.

use vstd::prelude::*;

use super::merge::merge_returns;
use super::resolve::{
    default_ring, io_backend_of, io_buffer_limit_of, parser_backend_of, resolve_parser_backend,
    ring_with_share, share_of, stream_ring_settings, ResolvedConfig,
};
use super::{chunked_returns, find_mode_of, input_task, merge_nothing, run_with, Task};
use crate::config::{Config, IoBackend, ParserBackend};
use crate::error::{lifted, Error};
use crate::io::ringbuf::buf::RingBuf;
use crate::io::ringbuf::reader::RingBufChunkReader;
use crate::io::ringbuf::settings::RingBufSettings;
use crate::io::slice::SliceInput;
use crate::io::{all_if, ring_has_room, ring_room, Access, FileInput, Input, Source};
use crate::parser::chunk::{
    chunk_returns, first_record, Assumption, ChunkParser, FindRecordStart, PassResult,
};
use crate::parser::dfa::DfaChunkParser;
use crate::parser::fold::{total, Accumulator};
use crate::parser::output::Output;
use crate::parser::simd::findstart::readable;
use crate::parser::simd::SimdChunkParser;
use crate::sys::Host;

verus! {

/// The task of parsing `data` once everything is resolved.
pub open spec fn resolved_task<A, I>(
    v: ResolvedConfig,
    data: Seq<u8>,
    access: Access,
    acc: A,
    init: I,
) -> Task<A, I> {
    Task {
        config: v.config,
        data,
        access,
        exact: v.parser_backend == ParserBackend::Dfa,
        acc,
        init,
    }
}

/// The I/O backend that a file of `len` bytes is read with.
pub open spec fn file_backend(c: Config, len: int) -> spec_fn(ResolvedConfig) -> IoBackend {
    |v: ResolvedConfig| io_backend_of(c, len, v.share())
}

/// The I/O backend that a slice is read with: always ring buffers.
pub open spec fn slice_backend() -> spec_fn(ResolvedConfig) -> IoBackend {
    |v: ResolvedConfig| IoBackend::RingBuf(ring_with_share(default_ring(), v.share()))
}

/// What parsing an input of bytes returns. A backend that cannot read the
/// dialect is reported; of an empty input nothing is parsed; any other is parsed
/// chunk by chunk. Here `backend` is the I/O backend that a resolved configuration
/// reads with, and `access` says how an I/O backend can read the input.
pub open spec fn parse_returns<
    S,
    O: Output + ?Sized,
    A: Accumulator<S, O>,
    I: Fn() -> S,
    M: FnOnce(Vec<S>) -> R,
    R,
>(
    c: Config,
    host: Host,
    data: Seq<u8>,
    backend: spec_fn(ResolvedConfig) -> IoBackend,
    access: spec_fn(IoBackend) -> Access,
    acc: A,
    init: I,
    merge: M,
    r: crate::Result<R>,
) -> bool {
    match parser_backend_of(c) {
        Err(why) => r matches Err(Error::InvalidConfig(m)) && m@ == why,
        Ok(_) => if data.len() == 0 {
            merge_returns(Ok(seq![]), merge, r)
        } else {
            exists|v: ResolvedConfig| #[trigger]
                v.resolves(c, host, data.len() as usize) && v.io_backend == backend(v)
                    && chunked_returns::<S, O, A, I, M, R>(
                    resolved_task(v, data, access(v.io_backend), acc, init),
                    merge,
                    r,
                )
        },
    }
}

/// A stream, read as one chunk without an end, comes to `pass`.
pub open spec fn streamed<S, O: Output + ?Sized, A: Accumulator<S, O>>(
    c: Config,
    backend: ParserBackend,
    data: Seq<u8>,
    access: Access,
    acc: A,
    s0: S,
    pass: PassResult<S>,
) -> bool {
    let exact = backend == ParserBackend::Dfa;
    let find = find_mode_of(c.has_headers, 0);
    let left = usize::MAX as nat;
    chunk_returns::<S, O, A>(
        pass,
        c,
        first_record(c, find, Assumption::OutOfQuotes, data, left, exact),
        data,
        left,
        access.reach,
        access.most,
        exact,
        acc,
        s0,
    )
}

/// What parsing a stream returns: one pass over it, merged on its own. Where nothing
/// can be held it is refused.
pub open spec fn stream_returns<
    S,
    O: Output + ?Sized,
    A: Accumulator<S, O>,
    I: FnOnce() -> S,
    M: FnOnce(Vec<S>) -> R,
    R,
>(
    c: Config,
    data: Seq<u8>,
    access: Access,
    acc: A,
    init: I,
    merge: M,
    r: crate::Result<R>,
) -> bool {
    match parser_backend_of(c) {
        Err(why) => r matches Err(Error::InvalidConfig(m)) && m@ == why,
        Ok(backend) => if access.most == 0 {
            r matches Err(e) && e is IO
        } else {
            exists|s0: S, pass: PassResult<S>|
                call_ensures(init, (), s0) && #[trigger] streamed::<S, O, A>(
                    c,
                    backend,
                    data,
                    access,
                    acc,
                    s0,
                    pass,
                ) && match pass.result {
                    Ok(state) => merge_returns(Ok(seq![state]), merge, r),
                    Err(e) => r == Err::<R, Error>(e),
                }
        },
    }
}

/// The scheduler orchestrates the processing of chunks.
///
/// It implements the speculative parsing strategy:
/// 1. Split the input into chunks.
/// 2. Parse each chunk under each assumption until one succeeds.
/// 3. Merge phase: resolve the correct assumption per chunk by aligning
///    record boundaries, then call the user's merge function.
#[derive(Debug)]
pub struct Scheduler {
    config: Config,
    host: Host,
}

/// A dialect that nothing is wrong with stays so once the sizes are settled.
proof fn settled_is_readable(c: Config, settled: Config)
    requires
        c.valid(),
        settled == (Config {
            chunk_size: settled.chunk_size,
            io_buffer_limit: settled.io_buffer_limit,
            ..c
        }),
    ensures
        crate::parser::simd::simd_objection(c) is None ==> readable(settled),
        c.ascii() ==> settled.ascii(),
        settled.escape is Some ==> settled.quote is Some,
{
    assert(settled.controls() == c.controls());
    assert forall|i: int, j: int| 0 <= i < j < 6 implies !#[trigger] settled.clashes(i, j) by {
        assert(!c.clashes(i, j));
    }
    if c.ascii() {
        assert forall|i: int| 0 <= i < 6 implies ((#[trigger] settled.controls()[i]) matches Some(b)
            ==> b < 0x80) by {
            assert(c.controls()[i] matches Some(b) ==> b < 0x80);
        }
    }
}

/// Single `parse` invocation against a streaming reader.
fn run_stream_inner<
    S,
    O: Output + ?Sized,
    A: Accumulator<S, O>,
    I: FnOnce() -> S,
    M: FnOnce(Vec<S>) -> R,
    R,
    P: ChunkParser,
    SRC: Source,
>(parser: &P, config: &Config, host: &Host, src: SRC, init: I, acc: A, merge: M) -> (r:
    crate::Result<R>)
    requires
        parser.wf(),
        parser.dialect() == *config,
        parser_backend_of(*config) matches Ok(b) && P::exact() == (b == ParserBackend::Dfa),
        O::textual() ==> config.ascii(),
        src.pending().len() < usize::MAX,
        total::<S, O, A>(acc),
        call_requires(init, ()),
        forall|states: Vec<S>| call_requires(merge, (states,)),
    ensures
        stream_returns::<S, O, A, I, M, R>(
            *config,
            src.pending(),
            stream_access(*config, *host, src),
            acc,
            init,
            merge,
            r,
        ),
{
    let ghost init_fn = init;
    let ghost merge_fn = merge;
    let ghost data = src.pending();
    let settings = stream_ring_settings(config, host);
    proof {
        ring_has_room(settings, host.allocation_granularity);
    }
    let buf = match RingBuf::new(
        settings.buffer_size,
        settings.buffer_limit,
        host.allocation_granularity,
    ) {
        Ok(buf) => buf,
        Err(e) => {
            return Err(Error::IO(e));
        },
    };
    let mut reader = RingBufChunkReader::new(buf, src, None, usize::MAX, settings.buffer_size);
    let find = if config.has_headers {
        FindRecordStart::SkipHeaders
    } else {
        FindRecordStart::No
    };
    let state = init();
    let ghost s0 = state;
    proof {
        assert(buf@ + data =~= data);
    }
    let pass = parser.parse::<S, O, A, RingBufChunkReader<SRC>>(
        &mut reader,
        state,
        Assumption::OutOfQuotes,
        &acc,
        find,
    );
    let ghost came = pass;
    proof {
        let backend = parser_backend_of(*config)->Ok_0;
        assert(streamed::<S, O, A>(
            *config,
            backend,
            data,
            stream_access(*config, *host, src),
            acc,
            s0,
            came,
        ));
    }
    match pass.result {
        Ok(state) => {
            let mut states: Vec<S> = Vec::new();
            states.push(state);
            let ghost v = states;
            let out = merge(states);
            proof {
                assert(v@ =~= seq![came.result->Ok_0]);
                assert(call_ensures(merge_fn, (v,), out));
                assert(call_ensures(init_fn, (), s0));
            }
            Ok(out)
        },
        Err(e) => {
            assert(call_ensures(init_fn, (), s0));
            Err(e)
        },
    }
}

/// The settings of the ring buffer that a stream is read through.
pub open spec fn stream_ring(c: Config, host: Host) -> RingBufSettings {
    ring_with_share(default_ring(), share_of(io_buffer_limit_of(c, host), 1))
}

/// How the stream can be read: through a ring buffer.
pub open spec fn stream_access<SRC: Source>(c: Config, host: Host, src: SRC) -> Access {
    let room = ring_room(stream_ring(c, host), host.allocation_granularity);
    Access { reach: all_if(src.reliable(), room), most: room }
}

impl Scheduler {
    /// What to parse.
    pub closed spec fn config(self) -> Config {
        self.config
    }

    /// The machine it runs on.
    pub closed spec fn host(self) -> Host {
        self.host
    }

    /// A scheduler for a machine of which nothing is known.
    pub fn new(config: Config) -> (r: Self)
        ensures
            r.config() == config,
            r.host() == Host::unknown(),
    {
        Self { config, host: Host::default() }
    }

    /// A scheduler for the machine `host`.
    pub fn with_host(config: Config, host: Host) -> (r: Self)
        ensures
            r.config() == config,
            r.host() == host,
    {
        Self { config, host }
    }

    /// The parse can be run: the configuration holds together, and the functions
    /// of the caller take whatever comes.
    pub open spec fn runs<
        S,
        O: Output + ?Sized,
        A: Accumulator<S, O>,
        M: FnOnce(Vec<S>) -> R,
        R,
    >(self, acc: A, merge: M) -> bool {
        &&& self.config().valid()
        &&& self.host().wf()
        &&& O::textual() ==> self.config().ascii()
        &&& total::<S, O, A>(acc)
        &&& forall|states: Vec<S>| call_requires(merge, (states,))
    }

    /// Run the full parse pipeline: split the file into chunks, parse them,
    /// merge the results.
    pub fn run<
        S,
        O: Output + ?Sized,
        A: Accumulator<S, O>,
        I: Fn() -> S,
        M: FnOnce(Vec<S>) -> R,
        R,
        F: FileInput,
    >(&self, file: &F, init: I, acc: A, merge: M) -> (r: crate::Result<R>)
        requires
            self.runs::<S, O, A, M, R>(acc, merge),
            call_requires(init, ()),
            file.content().len() < usize::MAX,
        ensures
            parse_returns::<S, O, A, I, M, R>(
                self.config(),
                self.host(),
                file.content(),
                file_backend(self.config(), file.content().len() as int),
                file_access(*file, self.host()),
                acc,
                init,
                merge,
                r,
            ) || (!file.sized() && (r matches Err(e) && e is IO)),
    {
        self.run_sized::<S, O, A, I, M, R, F>(file, file.size(), init, acc, merge)
    }

    /// [`Scheduler::run`], on what the file says of its size: if it cannot say, what
    /// comes back is why.
    pub fn run_sized<
        S,
        O: Output + ?Sized,
        A: Accumulator<S, O>,
        I: Fn() -> S,
        M: FnOnce(Vec<S>) -> R,
        R,
        F: FileInput,
    >(&self, file: &F, size: std::io::Result<usize>, init: I, acc: A, merge: M) -> (r:
        crate::Result<R>)
        requires
            self.runs::<S, O, A, M, R>(acc, merge),
            call_requires(init, ()),
            file.content().len() < usize::MAX,
            size matches Ok(n) ==> n == file.content().len(),
        ensures
            match size {
                Ok(_) => parse_returns::<S, O, A, I, M, R>(
                    self.config(),
                    self.host(),
                    file.content(),
                    file_backend(self.config(), file.content().len() as int),
                    file_access(*file, self.host()),
                    acc,
                    init,
                    merge,
                    r,
                ),
                Err(e) => r == Err::<R, Error>(Error::IO(e)),
            },
    {
        let ghost merge_fn = merge;
        let file_size: usize = match lifted(size) {
            Ok(n) => n,
            Err(e) => {
                return Err(e);
            },
        };
        let resolved = match ResolvedConfig::for_file(&self.config, &self.host, file_size) {
            Ok(resolved) => resolved,
            Err(e) => {
                return Err(e);
            },
        };
        if resolved.chunk_count == 0 {
            proof {
                assert(resolved.chunk_count * resolved.config.chunk_size == 0) by (nonlinear_arith)
                    requires
                        resolved.chunk_count == 0,
                ;
            }
            return Ok(merge_nothing(merge));
        }
        let r = self.dispatch_io::<S, O, A, I, M, R, F>(&resolved, file, init, acc, merge);
        proof {
            let access = file_access(*file, self.host());
            let backend = file_backend(self.config(), file.content().len() as int);
            assert(resolved.io_backend == backend(resolved));
            assert(file.content().len() as usize == file_size);
            assert(resolved.resolves(self.config(), self.host(), file.content().len() as usize));
            assert(chunked_returns::<S, O, A, I, M, R>(
                resolved_task(
                    resolved,
                    file.content(),
                    access(resolved.io_backend),
                    acc,
                    init,
                ),
                merge_fn,
                r,
            ));
        }
        r
    }

    /// Pick the I/O backend, and forward to [`Scheduler::dispatch`], which does
    /// the same for the parser.
    fn dispatch_io<
        S,
        O: Output + ?Sized,
        A: Accumulator<S, O>,
        I: Fn() -> S,
        M: FnOnce(Vec<S>) -> R,
        R,
        F: FileInput,
    >(&self, resolved: &ResolvedConfig, file: &F, init: I, acc: A, merge: M) -> (r: crate::Result<
        R,
    >)
        requires
            self.runs::<S, O, A, M, R>(acc, merge),
            call_requires(init, ()),
            0 < file.content().len() < usize::MAX,
            resolved.resolves(self.config(), self.host(), file.content().len() as usize),
            resolved.io_backend == io_backend_of(
                self.config(),
                file.content().len() as int,
                resolved.share(),
            ),
        ensures
            chunked_returns::<S, O, A, I, M, R>(
                resolved_task(
                    *resolved,
                    file.content(),
                    file_access(*file, self.host())(resolved.io_backend),
                    acc,
                    init,
                ),
                merge,
                r,
            ),
    {
        match resolved.io_backend {
            IoBackend::Mmap => {
                let input = file.mapped();
                self.dispatch::<S, O, A, I, M, R, F::Mapped>(resolved, &input, init, acc, merge)
            },
            IoBackend::RingBuf(settings) => {
                let input = file.ring(settings, self.host.allocation_granularity);
                self.dispatch::<S, O, A, I, M, R, F::Ring>(resolved, &input, init, acc, merge)
            },
            // `Auto` does not outlast the resolution.
            IoBackend::InMemory | IoBackend::Auto => {
                let input = file.memory();
                self.dispatch::<S, O, A, I, M, R, F::Memory>(resolved, &input, init, acc, merge)
            },
        }
    }

    /// Pick the parser implementation from the resolved config.
    fn dispatch<
        S,
        O: Output + ?Sized,
        A: Accumulator<S, O>,
        I: Fn() -> S,
        M: FnOnce(Vec<S>) -> R,
        R,
        IN: Input,
    >(&self, resolved: &ResolvedConfig, input: &IN, init: I, acc: A, merge: M) -> (r:
        crate::Result<R>)
        requires
            self.runs::<S, O, A, M, R>(acc, merge),
            call_requires(init, ()),
            0 < input.data().len() < usize::MAX,
            resolved.resolves(self.config(), self.host(), input.data().len() as usize),
        ensures
            chunked_returns::<S, O, A, I, M, R>(
                resolved_task(*resolved, input.data(), access_of(*input), acc, init),
                merge,
                r,
            ),
    {
        proof {
            settled_is_readable(self.config, resolved.config);
        }
        match resolved.parser_backend {
            ParserBackend::Simd => {
                let parser = SimdChunkParser::new(resolved.config);
                proof {
                    assert(input_task(parser, *input, acc, init) == resolved_task(
                        *resolved,
                        input.data(),
                        access_of(*input),
                        acc,
                        init,
                    ));
                }
                run_with::<S, O, A, I, M, R, SimdChunkParser, IN>(
                    resolved,
                    &parser,
                    input,
                    init,
                    acc,
                    merge,
                )
            },
            // `Auto` does not outlast the resolution.
            ParserBackend::Dfa | ParserBackend::Auto => {
                let parser = DfaChunkParser::new(resolved.config);
                proof {
                    assert(input_task(parser, *input, acc, init) == resolved_task(
                        *resolved,
                        input.data(),
                        access_of(*input),
                        acc,
                        init,
                    ));
                }
                run_with::<S, O, A, I, M, R, DfaChunkParser, IN>(
                    resolved,
                    &parser,
                    input,
                    init,
                    acc,
                    merge,
                )
            },
        }
    }

    /// Parse of a caller-supplied byte slice, chunk by chunk.
    pub fn run_slice<
        S,
        O: Output + ?Sized,
        A: Accumulator<S, O>,
        I: Fn() -> S,
        M: FnOnce(Vec<S>) -> R,
        R,
    >(&self, data: &[u8], init: I, acc: A, merge: M) -> (r: crate::Result<R>)
        requires
            self.runs::<S, O, A, M, R>(acc, merge),
            call_requires(init, ()),
            data@.len() < usize::MAX,
        ensures
            parse_returns::<S, O, A, I, M, R>(
                self.config(),
                self.host(),
                data@,
                slice_backend(),
                slice_access(self.host()),
                acc,
                init,
                merge,
                r,
            ),
    {
        let ghost merge_fn = merge;
        let resolved = match ResolvedConfig::for_slice(&self.config, &self.host, data.len()) {
            Ok(resolved) => resolved,
            Err(e) => {
                return Err(e);
            },
        };
        if resolved.chunk_count == 0 {
            proof {
                assert(resolved.chunk_count * resolved.config.chunk_size == 0) by (nonlinear_arith)
                    requires
                        resolved.chunk_count == 0,
                ;
            }
            return Ok(merge_nothing(merge));
        }
        let settings = match resolved.io_backend {
            IoBackend::RingBuf(settings) => settings,
            // a slice is always read through ring buffers
            _ => crate::io::ringbuf::settings::RingBufSettings::default(),
        };
        let input = SliceInput::new(data, settings, self.host.allocation_granularity);
        let r = self.dispatch::<S, O, A, I, M, R, SliceInput>(&resolved, &input, init, acc, merge);
        proof {
            let access = slice_access(self.host());
            let backend = slice_backend();
            assert(resolved.io_backend == backend(resolved));
            assert(access(resolved.io_backend) == access_of(input));
            assert(resolved.resolves(self.config(), self.host(), data@.len() as usize));
            assert(chunked_returns::<S, O, A, I, M, R>(
                resolved_task(resolved, data@, access(resolved.io_backend), acc, init),
                merge_fn,
                r,
            ));
        }
        r
    }

    /// Sequential parse from a user-supplied source.
    pub fn run_stream<
        S,
        O: Output + ?Sized,
        A: Accumulator<S, O>,
        I: FnOnce() -> S,
        M: FnOnce(Vec<S>) -> R,
        R,
        SRC: Source,
    >(&self, src: SRC, init: I, acc: A, merge: M) -> (r: crate::Result<R>)
        requires
            self.runs::<S, O, A, M, R>(acc, merge),
            call_requires(init, ()),
            src.pending().len() < usize::MAX,
        ensures
            stream_returns::<S, O, A, I, M, R>(
                self.config(),
                src.pending(),
                stream_access(self.config(), self.host(), src),
                acc,
                init,
                merge,
                r,
            ),
    {
        let parser_backend = resolve_parser_backend(&self.config)?;
        proof {
            settled_is_readable(self.config, self.config);
        }
        match parser_backend {
            ParserBackend::Simd => {
                let parser = SimdChunkParser::new(self.config);
                run_stream_inner::<S, O, A, I, M, R, SimdChunkParser, SRC>(
                    &parser,
                    &self.config,
                    &self.host,
                    src,
                    init,
                    acc,
                    merge,
                )
            },
            // `Auto` does not outlast the resolution.
            ParserBackend::Dfa | ParserBackend::Auto => {
                let parser = DfaChunkParser::new(self.config);
                run_stream_inner::<S, O, A, I, M, R, DfaChunkParser, SRC>(
                    &parser,
                    &self.config,
                    &self.host,
                    src,
                    init,
                    acc,
                    merge,
                )
            },
        }
    }
}

/// How an input can be read.
pub open spec fn access_of<IN: Input>(input: IN) -> Access {
    Access { reach: input.reach(), most: input.most() }
}

/// How the file can be read with a backend.
pub open spec fn file_access<F: FileInput>(file: F, host: Host) -> spec_fn(IoBackend) -> Access {
    |backend: IoBackend|
        {
            let all = usize::MAX as nat;
            match backend {
                IoBackend::Mmap => Access { reach: all_if(file.maps(), all), most: all },
                IoBackend::RingBuf(settings) => {
                    let room = ring_room(settings, host.allocation_granularity);
                    let sure = file.rings(settings, host.allocation_granularity);
                    Access { reach: all_if(sure, room), most: room }
                },
                _ => Access { reach: all_if(file.loads(), all), most: all },
            }
        }
}

/// How a slice can be read with a backend, which is always ring buffers.
pub open spec fn slice_access(host: Host) -> spec_fn(IoBackend) -> Access {
    |backend: IoBackend|
        match backend {
            IoBackend::RingBuf(settings) => {
                let room = ring_room(settings, host.allocation_granularity);
                Access { reach: room, most: room }
            },
            _ => Access { reach: 0, most: 0 },
        }
}

} // verus!
