//! Turning a user [`Config`] into a [`ResolvedConfig`].
//!
//! Everything here is policy: given the user's settings plus what we can
//! observe about the input (size, host parallelism), decide which backends
//! to use and how big the work units are. Resolution order matters a lot
//! here.

use vstd::prelude::*;

use crate::config::{Config, IoBackend, ParserBackend, QuoteHandling};
use crate::error::Error;
use crate::io::ringbuf::settings::RingBufSettings;
use crate::parser::chunk::FindRecordStart;
use crate::parser::simd::{simd_objection, simd_supports};
use crate::sys::Host;

verus! {

/// The smaller of two numbers.
pub open spec fn least(a: int, b: int) -> int {
    if a <= b {
        a
    } else {
        b
    }
}

/// The smaller of two numbers.
fn smaller(a: usize, b: usize) -> (r: usize)
    ensures
        r == least(a as int, b as int),
{
    if a <= b {
        a
    } else {
        b
    }
}

/// How many pieces of `size` it takes to cover `n`.
pub open spec fn pieces(n: int, size: int) -> int {
    if n % size == 0 {
        n / size
    } else {
        n / size + 1
    }
}

/// `s` is the least number whose square is at least `n`.
pub open spec fn is_ceil_sqrt(n: int, s: int) -> bool {
    0 <= s && n <= s * s && (s > 0 ==> (s - 1) * (s - 1) < n)
}

/// The square root of `n`, rounded up.
fn ceil_sqrt(n: usize) -> (r: usize)
    ensures
        is_ceil_sqrt(n as int, r as int),
{
    let mut s: usize = 0;
    proof {
        assert(0 * 0 == 0) by (nonlinear_arith);
    }
    while (s as u128) * (s as u128) < n as u128
        invariant
            s > 0 ==> (s - 1) * (s - 1) < n,
            s <= n,
            (s as u128) * (s as u128) <= u128::MAX,
        decreases n - s,
    {
        proof {
            assert(s * s >= s) by (nonlinear_arith)
                requires
                    s >= 0,
            ;
            assert((s + 1) * (s + 1) <= 0xffff_ffff_ffff_ffff_ffff_ffff_ffff_ffffu128)
                by (nonlinear_arith)
                requires
                    s + 1 <= 0xffff_ffff_ffff_ffff,
                    s >= 0,
            ;
        }
        s = s + 1;
    }
    s
}

/// Fully-resolved scheduler configuration.
#[derive(Debug)]
pub struct ResolvedConfig {
    pub config: Config,
    pub parser_backend: ParserBackend,
    pub io_backend: IoBackend,
    pub thread_count: usize,
    pub chunk_count: usize,
    pub file_size: usize,
}

/// Size below which `Auto` prefers the in-memory backend over mmap.
pub const IN_MEMORY_FILE_SIZE_THRESHOLD: usize = 1048576;

/// The parser backend a configuration gets, or why it gets none.
pub open spec fn parser_backend_of(c: Config) -> core::result::Result<ParserBackend, Seq<char>> {
    match c.parser_backend {
        ParserBackend::Dfa => Ok(ParserBackend::Dfa),
        ParserBackend::Auto => if simd_objection(c) is None {
            Ok(ParserBackend::Simd)
        } else {
            Ok(ParserBackend::Dfa)
        },
        ParserBackend::Simd => match simd_objection(c) {
            None => Ok(ParserBackend::Simd),
            Some(why) => Err(why),
        },
    }
}

/// Select the chunk parser backend, resolving `Auto`.
pub fn resolve_parser_backend(config: &Config) -> (r: crate::Result<ParserBackend>)
    ensures
        match parser_backend_of(*config) {
            Ok(b) => r == Ok::<ParserBackend, Error>(b),
            Err(why) => r matches Err(Error::InvalidConfig(m)) && m@ == why,
        },
{
    match config.parser_backend {
        ParserBackend::Auto => {
            if simd_supports(config).is_ok() {
                return Ok(ParserBackend::Simd);
            }
            Ok(ParserBackend::Dfa)
        },
        ParserBackend::Dfa => Ok(ParserBackend::Dfa),
        ParserBackend::Simd => match simd_supports(config) {
            Ok(_) => Ok(ParserBackend::Simd),
            Err(why) => Err(Error::InvalidConfig(why)),
        },
    }
}

/// The chunk size a configuration gets.
pub open spec fn chunk_size_of(c: Config, backend: ParserBackend) -> usize {
    if c.chunk_size != 0 {
        c.chunk_size
    } else if backend == ParserBackend::Simd {
        1048576
    } else {
        262144
    }
}

/// Resolve the chunk size, honoring the auto-detect sentinel.
pub fn resolve_chunk_size(config: &Config, parser_backend: ParserBackend) -> (r: usize)
    ensures
        r == chunk_size_of(*config, parser_backend),
        r > 0,
{
    if config.chunk_size != 0 {
        return config.chunk_size;
    }
    match parser_backend {
        ParserBackend::Simd => 1024 * 1024,
        _ => 256 * 1024,
    }
}

/// The total I/O buffer budget of a configuration.
pub open spec fn io_buffer_limit_of(c: Config, host: Host) -> Option<usize> {
    if c.io_buffer_limit == Some(0usize) {
        match host.total_ram {
            Some(ram) => Some((ram / 2) as usize),
            None => None,
        }
    } else {
        c.io_buffer_limit
    }
}

/// Resolve the *total* I/O buffer budget, honoring the auto sentinel.
pub fn resolve_io_buffer_limit(config: &Config, host: &Host) -> (r: Option<usize>)
    ensures
        r == io_buffer_limit_of(*config, *host),
{
    match config.io_buffer_limit {
        Some(0) => match host.total_ram {
            Some(ram) => Some(ram / 2),
            None => None,
        },
        other => other,
    }
}

/// Smallest buffer a worker can be given and still do useful work.
pub fn min_thread_buffer(host: &Host) -> (r: usize)
    ensures
        r == host.allocation_granularity,
{
    host.allocation_granularity
}

/// How many workers a budget can pay for.
pub open spec fn affordable(budget: Option<usize>, host: Host) -> int {
    match budget {
        None => usize::MAX as int,
        Some(b) => if b as int / host.allocation_granularity as int >= 1 {
            b as int / host.allocation_granularity as int
        } else {
            1
        },
    }
}

/// How many workers the I/O buffer budget can pay for.
pub fn affordable_thread_count(io_buffer_limit: Option<usize>, host: &Host) -> (r: usize)
    requires
        host.wf(),
    ensures
        r == affordable(io_buffer_limit, *host),
{
    match io_buffer_limit {
        None => usize::MAX,
        Some(budget) => {
            let n: usize = budget / min_thread_buffer(host);
            if n >= 1 {
                n
            } else {
                1
            }
        },
    }
}

/// `n` is the number of threads a parse gets: no more than asked for or
/// available, one per chunk, six times the square root of the number of chunks,
/// or what the buffer budget pays for.
pub open spec fn is_thread_count(
    c: Config,
    host: Host,
    chunks: int,
    budget: Option<usize>,
    n: int,
) -> bool {
    let asked = if c.concurrency == 0 {
        host.available_parallelism
    } else {
        c.concurrency
    };
    exists|root: int| #[trigger]
        is_ceil_sqrt(chunks, root) && n == least(
            least(least(asked as int, chunks), 6 * root),
            affordable(budget, host),
        )
}

/// Determine the number of threads to use.
pub fn resolve_thread_count(
    config: &Config,
    host: &Host,
    chunk_count: usize,
    io_buffer_limit: Option<usize>,
) -> (r: usize)
    requires
        host.wf(),
    ensures
        is_thread_count(*config, *host, chunk_count as int, io_buffer_limit, r as int),
        r <= chunk_count,
        chunk_count >= 1 ==> r >= 1,
{
    // concurrency == 0 is the sentinel for "auto-detect now".
    let h: usize = if config.concurrency == 0 {
        host.available_parallelism
    } else {
        config.concurrency
    };
    let sqrt_c: usize = ceil_sqrt(chunk_count);
    let six: usize = if sqrt_c > usize::MAX / 6 {
        usize::MAX
    } else {
        6 * sqrt_c
    };
    proof {
        // beyond the machine range the term does not bind
        assert(sqrt_c * 6 >= chunk_count || sqrt_c <= usize::MAX / 6) by (nonlinear_arith)
            requires
                sqrt_c >= 0,
                chunk_count <= usize::MAX,
                sqrt_c > usize::MAX / 6 ==> sqrt_c * 6 >= usize::MAX - 5,
                (sqrt_c - 1) * (sqrt_c - 1) < chunk_count || sqrt_c == 0,
                usize::MAX >= 4294967295,
        ;
        if chunk_count >= 1 {
            assert(sqrt_c >= 1) by (nonlinear_arith)
                requires
                    chunk_count >= 1,
                    chunk_count <= sqrt_c * sqrt_c,
                    sqrt_c >= 0,
            ;
        }
    }
    let b: usize = affordable_thread_count(io_buffer_limit, host);
    let r: usize = smaller(smaller(smaller(h, chunk_count), six), b);
    assert(is_ceil_sqrt(chunk_count as int, sqrt_c as int));
    r
}

/// Divide the total limit into one worker's share.
pub fn per_thread_share(io_buffer_limit: Option<usize>, thread_count: usize) -> (r: Option<usize>)
    ensures
        r == share_of(io_buffer_limit, thread_count),
{
    match io_buffer_limit {
        None => None,
        Some(total) => if thread_count == 0 {
            None
        } else {
            Some(total / thread_count)
        },
    }
}

/// One worker's share of a total limit.
pub open spec fn share_of(total: Option<usize>, threads: usize) -> Option<usize> {
    match total {
        Some(t) => if threads == 0 {
            None
        } else {
            Some((t as int / threads as int) as usize)
        },
        None => None,
    }
}

/// The cap one worker's buffer gets: its own bound, tightened by its share of
/// the total.
pub open spec fn buffer_limit_of(own: Option<usize>, share: Option<usize>) -> Option<usize> {
    if own is None || own == Some(0usize) {
        share
    } else if share is None || own->0 <= share->0 {
        own
    } else {
        share
    }
}

/// The cap one worker's buffer actually gets.
pub fn resolve_buffer_limit(own: Option<usize>, share: Option<usize>) -> (r: Option<usize>)
    ensures
        r == buffer_limit_of(own, share),
{
    match own {
        None => share,
        Some(own) => if own == 0 {
            share
        } else {
            match share {
                Some(share) => Some(smaller(own, share)),
                None => Some(own),
            }
        },
    }
}

/// Ring-buffer settings with the cap that a share leaves.
pub open spec fn ring_with_share(ring: RingBufSettings, share: Option<usize>) -> RingBufSettings {
    RingBufSettings {
        buffer_size: ring.buffer_size,
        buffer_limit: buffer_limit_of(ring.buffer_limit, share),
    }
}

/// Turn caller-stated [`RingBufSettings`] into the concrete values the
/// ring buffer is built from.
pub fn resolve_ringbuf_settings(ring: RingBufSettings, share: Option<usize>) -> (r:
    RingBufSettings)
    ensures
        r == ring_with_share(ring, share),
{
    RingBufSettings {
        buffer_size: ring.buffer_size,
        buffer_limit: resolve_buffer_limit(ring.buffer_limit, share),
    }
}

/// The settings of a ring buffer that nothing was said about.
pub open spec fn default_ring() -> RingBufSettings {
    RingBufSettings { buffer_size: 16384, buffer_limit: Some(0) }
}

/// Ring-buffer settings for the paths that buffer through a ring buffer
/// without selecting a backend: `parse_slice` and `parse_stream`.
pub fn unbacked_ring_settings(share: Option<usize>) -> (r: RingBufSettings)
    ensures
        r == ring_with_share(default_ring(), share),
{
    resolve_ringbuf_settings(RingBufSettings::default(), share)
}

/// The I/O backend a configuration gets for a file of `file_size` bytes.
pub open spec fn io_backend_of(c: Config, file_size: int, share: Option<usize>) -> IoBackend {
    match c.io_backend {
        IoBackend::Auto => if file_size <= IN_MEMORY_FILE_SIZE_THRESHOLD {
            IoBackend::InMemory
        } else {
            IoBackend::RingBuf(ring_with_share(default_ring(), share))
        },
        IoBackend::RingBuf(ring) => IoBackend::RingBuf(ring_with_share(ring, share)),
        other => other,
    }
}

/// Select the I/O backend, resolving `Auto` from file size.
pub fn resolve_io_backend(config: &Config, file_size: usize, share: Option<usize>) -> (r: IoBackend)
    ensures
        r == io_backend_of(*config, file_size as int, share),
{
    let selected = match config.io_backend {
        IoBackend::Auto => {
            if file_size <= IN_MEMORY_FILE_SIZE_THRESHOLD {
                IoBackend::InMemory
            } else {
                IoBackend::RingBuf(RingBufSettings::default())
            }
        },
        other => other,
    };
    match selected {
        IoBackend::RingBuf(ring) => IoBackend::RingBuf(resolve_ringbuf_settings(ring, share)),
        other => other,
    }
}

/// Ring-buffer settings for the streaming path.
pub fn stream_ring_settings(config: &Config, host: &Host) -> (r: RingBufSettings)
    ensures
        r == ring_with_share(default_ring(), share_of(io_buffer_limit_of(*config, *host), 1)),
{
    let io_buffer_limit = resolve_io_buffer_limit(config, host);
    let share = per_thread_share(io_buffer_limit, 1);
    unbacked_ring_settings(share)
}

/// How many chunks of `size` bytes cover `n` bytes.
fn chunk_count_of(n: usize, size: usize) -> (r: usize)
    requires
        size > 0,
    ensures
        r == pieces(n as int, size as int),
        r <= n,
        n > 0 ==> r >= 1 && (r - 1) * size < n,
        n <= r * size,
{
    let whole: usize = n / size;
    proof {
        vstd::arithmetic::div_mod::lemma_fundamental_div_mod(n as int, size as int);
        assert(whole <= n) by (nonlinear_arith)
            requires
                n == size * whole + n as int % size as int,
                n as int % size as int >= 0,
                size >= 1,
                whole >= 0,
        ;
        assert(n % size != 0 ==> whole + 1 <= n) by (nonlinear_arith)
            requires
                n == size * whole + n as int % size as int,
                n as int % size as int >= 0,
                size >= 1,
                whole >= 0,
        ;
        assert(whole * size == size * whole) by (nonlinear_arith);
        assert(size * 0 == 0) by (nonlinear_arith);
        assert(((whole + 1) - 1) * size == whole * size);
        assert(size * whole >= 0) by (nonlinear_arith)
            requires
                whole >= 0,
                size >= 1,
        ;
        assert((whole + 1) * size == size * whole + size) by (nonlinear_arith);
        assert((whole - 1) * size == size * whole - size) by (nonlinear_arith);
    }
    if n % size == 0 {
        whole
    } else {
        whole + 1
    }
}

impl ResolvedConfig {
    /// The configuration, with the sentinels replaced that do not depend on
    /// the backend.
    pub open spec fn settled(c: Config, host: Host, backend: ParserBackend) -> Config {
        Config {
            chunk_size: chunk_size_of(c, backend),
            io_buffer_limit: io_buffer_limit_of(c, host),
            ..c
        }
    }

    /// What resolution makes of `c` for an input of `len` bytes, up to the I/O backend.
    pub open spec fn resolves(self, c: Config, host: Host, len: usize) -> bool {
        &&& parser_backend_of(c) == Ok::<ParserBackend, Seq<char>>(self.parser_backend)
        &&& self.config == Self::settled(c, host, self.parser_backend)
        &&& self.file_size == len
        &&& self.chunk_count == pieces(len as int, self.config.chunk_size as int)
        &&& self.chunk_count <= len
        &&& len > 0 ==> self.chunk_count >= 1 && (self.chunk_count - 1) * self.config.chunk_size
            < len
        &&& len <= self.chunk_count * self.config.chunk_size
        &&& self.config.chunk_size > 0
        &&& is_thread_count(
            c,
            host,
            self.chunk_count as int,
            self.config.io_buffer_limit,
            self.thread_count as int,
        )
        &&& self.thread_count <= self.chunk_count
        &&& self.chunk_count >= 1 ==> self.thread_count >= 1
    }

    /// One worker's share of the buffer budget.
    pub open spec fn share(self) -> Option<usize> {
        share_of(self.config.io_buffer_limit, self.thread_count)
    }

    /// Resolve auto sentinels into concrete values for a file input.
    pub fn for_file(config: &Config, host: &Host, file_size: usize) -> (r: crate::Result<Self>)
        requires
            host.wf(),
        ensures
            match parser_backend_of(*config) {
                Ok(_) => r matches Ok(v) && v.resolves(*config, *host, file_size) && v.io_backend
                    == io_backend_of(*config, file_size as int, v.share()),
                Err(why) => r matches Err(Error::InvalidConfig(m)) && m@ == why,
            },
    {
        let parser_backend = resolve_parser_backend(config)?;
        let chunk_size: usize = resolve_chunk_size(config, parser_backend);
        let chunk_count: usize = chunk_count_of(file_size, chunk_size);
        let io_buffer_limit = resolve_io_buffer_limit(config, host);
        let thread_count: usize = resolve_thread_count(config, host, chunk_count, io_buffer_limit);
        let share = per_thread_share(io_buffer_limit, thread_count);
        let io_backend = resolve_io_backend(config, file_size, share);
        let mut settled = *config;
        settled.chunk_size = chunk_size;
        settled.io_buffer_limit = io_buffer_limit;
        Ok(
            ResolvedConfig {
                config: settled,
                parser_backend,
                io_backend,
                thread_count,
                chunk_count,
                file_size,
            },
        )
    }

    /// [`ResolvedConfig::for_file`] for a slice input.
    pub fn for_slice(config: &Config, host: &Host, len: usize) -> (r: crate::Result<Self>)
        requires
            host.wf(),
        ensures
            match parser_backend_of(*config) {
                Ok(_) => r matches Ok(v) && v.resolves(*config, *host, len) && v.io_backend
                    == IoBackend::RingBuf(ring_with_share(default_ring(), v.share())),
                Err(why) => r matches Err(Error::InvalidConfig(m)) && m@ == why,
            },
    {
        let parser_backend = resolve_parser_backend(config)?;
        let chunk_size: usize = resolve_chunk_size(config, parser_backend);
        let chunk_count: usize = chunk_count_of(len, chunk_size);
        let io_buffer_limit = resolve_io_buffer_limit(config, host);
        let thread_count: usize = resolve_thread_count(config, host, chunk_count, io_buffer_limit);
        let share = per_thread_share(io_buffer_limit, thread_count);
        let mut settled = *config;
        settled.chunk_size = chunk_size;
        settled.io_buffer_limit = io_buffer_limit;
        Ok(
            ResolvedConfig {
                config: settled,
                parser_backend,
                io_backend: IoBackend::RingBuf(unbacked_ring_settings(share)),
                thread_count,
                chunk_count,
                file_size: len,
            },
        )
    }

    /// How the search for a record start behaves for a given chunk.
    pub open spec fn mode(self, chunk_idx: int) -> FindRecordStart {
        if chunk_idx != 0 {
            FindRecordStart::Strict
        } else if self.config.has_headers {
            FindRecordStart::SkipHeaders
        } else {
            FindRecordStart::No
        }
    }

    /// Determine how the search for a record start should behave for a given chunk.
    pub fn find_mode(&self, chunk_idx: usize) -> (r: FindRecordStart)
        ensures
            r == self.mode(chunk_idx as int),
    {
        if chunk_idx == 0 {
            if self.config.has_headers {
                FindRecordStart::SkipHeaders
            } else {
                FindRecordStart::No
            }
        } else {
            FindRecordStart::Strict
        }
    }
}

/// The shares of all workers together stay within the total.
pub proof fn shares_stay_within_the_total(total: usize, threads: usize)
    requires
        threads >= 1,
    ensures
        share_of(Some(total), threads) matches Some(s) && s * threads <= total,
{
    vstd::arithmetic::div_mod::lemma_fundamental_div_mod(total as int, threads as int);
    let q = total as int / threads as int;
    assert(q * threads <= total && q <= total && q >= 0) by (nonlinear_arith)
        requires
            total == threads * q + total as int % threads as int,
            total as int % threads as int >= 0,
            total as int % threads as int <= total,
            threads >= 1,
            q == total as int / threads as int,
            total >= 0,
    ;
}

/// A worker's own bound never widens its share, and its share never widens its
/// own bound.
pub proof fn own_limit_only_tightens(own: Option<usize>, share: Option<usize>)
    ensures
        share matches Some(s) ==> (buffer_limit_of(own, share) matches Some(l) && l <= s),
        own matches Some(o) ==> o != 0 ==> (buffer_limit_of(own, share) matches Some(l) && l <= o),
{
}

/// A chunk size that is asked for is taken. One that is left open is a mebibyte for the
/// bitmask parser and a quarter of that for the table-driven one.
pub proof fn chunks_are_of_the_size_asked_for(c: Config)
    ensures
        forall|b: ParserBackend|
            c.chunk_size > 0 ==> #[trigger] chunk_size_of(c, b) == c.chunk_size,
        c.chunk_size == 0 ==> chunk_size_of(c, ParserBackend::Simd) == 1024 * 1024 && chunk_size_of(
            c,
            ParserBackend::Dfa,
        ) == 256 * 1024,
{
}

/// A limit that is asked for is the limit, no limit is none; one that is left open is half
/// of the memory, where that is known.
pub proof fn limits_are_those_asked_for(c: Config, host: Host)
    ensures
        c.io_buffer_limit is None ==> io_buffer_limit_of(c, host) is None,
        c.io_buffer_limit matches Some(l) ==> l > 0 ==> io_buffer_limit_of(c, host) == Some(l),
        c.io_buffer_limit == Some(0usize) ==> match host.total_ram {
            None => io_buffer_limit_of(c, host) is None,
            Some(ram) => io_buffer_limit_of(c, host) matches Some(l) && 2 * l <= ram < 2 * l + 2,
        },
{
}

/// The chunks cover the input, and one fewer would not.
pub proof fn chunks_cover_the_input(n: int, size: int)
    requires
        0 <= n,
        0 < size,
    ensures
        n <= pieces(n, size) * size,
        n > 0 ==> (pieces(n, size) - 1) * size < n,
        n == 0 ==> pieces(n, size) == 0,
{
    vstd::arithmetic::div_mod::lemma_fundamental_div_mod(n, size);
    let q = n / size;
    assert(q * size == size * q && (q + 1) * size == size * q + size && (q - 1) * size == size * q
        - size) by (nonlinear_arith);
    if n == 0 {
        assert(q == 0) by (nonlinear_arith)
            requires
                0 == size * q + n % size,
                0 <= n % size < size,
                n == 0,
        ;
    }
}

/// As many threads run as there are to run, up to one per chunk, six times the square root
/// of the number of chunks, and what the budget pays a buffer for; and of these bounds one
/// is met.
pub proof fn threads_are_as_many_as_allowed(
    c: Config,
    host: Host,
    chunks: int,
    budget: Option<usize>,
    n: int,
)
    requires
        is_thread_count(c, host, chunks, budget, n),
        host.wf(),
        0 <= chunks,
    ensures
        ({
            let asked = if c.concurrency > 0 {
                c.concurrency as int
            } else {
                host.available_parallelism as int
            };
            let paid = host.allocation_granularity as int;
            &&& n <= asked
            &&& n <= chunks
            &&& n <= 6 || (n - 6) * (n - 6) < 36 * chunks
            &&& budget matches Some(b) ==> n <= 1 || n * paid <= b
            &&& {
                ||| n == asked
                ||| n == chunks
                ||| n * n >= 36 * chunks
                ||| budget matches Some(b) && (n + 1) * paid > b
            }
        }),
{
    let root = choose|root: int| #[trigger]
        is_ceil_sqrt(chunks, root) && n == least(
            least(
                least(
                    (if c.concurrency == 0 {
                        host.available_parallelism
                    } else {
                        c.concurrency
                    }) as int,
                    chunks,
                ),
                6 * root,
            ),
            affordable(budget, host),
        );
    assert((6 * root) * (6 * root) == 36 * (root * root)) by (nonlinear_arith);
    if n > 6 {
        assert((n - 6) * (n - 6) <= (6 * root - 6) * (6 * root - 6)) by (nonlinear_arith)
            requires
                6 < n <= 6 * root,
        ;
        assert((6 * root - 6) * (6 * root - 6) == 36 * ((root - 1) * (root - 1)))
            by (nonlinear_arith);
    }
    if let Some(b) = budget {
        let paid = host.allocation_granularity as int;
        vstd::arithmetic::div_mod::lemma_fundamental_div_mod(b as int, paid);
        let q = b as int / paid;
        assert(paid * q <= b < paid * q + paid);
        if n >= 1 && q >= 1 {
            assert(n * paid <= paid * q) by (nonlinear_arith)
                requires
                    n <= q,
                    paid >= 1,
            ;
        }
        assert((q + 1) * paid == paid * q + paid) by (nonlinear_arith);
        if q < 1 {
            assert(b < 2 * paid) by (nonlinear_arith)
                requires
                    b < paid * q + paid,
                    q < 1,
                    paid >= 1,
            ;
        }
        if n == affordable(budget, host) {
            assert((n + 1) * paid > b);
        }
    }
}

/// A share is what one of so many gets of the total, to the byte.
pub proof fn shares_are_even(total: usize, threads: usize)
    requires
        threads >= 1,
    ensures
        share_of(Some(total), threads) matches Some(s) && s * threads <= total < (s + 1) * threads,
        share_of(None, threads) is None,
{
    shares_stay_within_the_total(total, threads);
    vstd::arithmetic::div_mod::lemma_fundamental_div_mod(total as int, threads as int);
    let q = total as int / threads as int;
    assert((q + 1) * threads == threads * q + threads) by (nonlinear_arith);
    assert(0 <= q <= total) by (nonlinear_arith)
        requires
            total == threads * q + total as int % threads as int,
            0 <= total as int % threads as int,
            total as int % threads as int <= total,
            threads >= 1,
            q == total as int / threads as int,
            total >= 0,
    ;
}

/// A buffer's limit is the smaller of its own and its share, of those that are set; an own
/// limit of zero counts as not set.
pub proof fn the_tighter_limit_counts(own: Option<usize>, share: Option<usize>)
    ensures
        ({
            let l = buffer_limit_of(own, share);
            let unset = own is None || own == Some(0usize);
            &&& unset ==> l == share
            &&& !unset && share is None ==> l == own
            &&& !unset && share is Some ==> l is Some && l->0 <= own->0 && l->0 <= share->0 && (l
                == own || l == share)
        }),
{
}

/// A backend that is asked for is taken, and a ring buffer keeps its size. What is left open
/// is read into memory up to a mebibyte, and through a ring buffer of 16 KiB from there on.
pub proof fn backends_are_those_asked_for(c: Config, len: int, share: Option<usize>)
    ensures
        c.io_backend == IoBackend::Mmap ==> io_backend_of(c, len, share) == IoBackend::Mmap,
        c.io_backend == IoBackend::InMemory ==> io_backend_of(c, len, share) == IoBackend::InMemory,
        c.io_backend matches IoBackend::RingBuf(ring) ==> io_backend_of(c, len, share)
            == IoBackend::RingBuf(
            RingBufSettings {
                buffer_size: ring.buffer_size,
                buffer_limit: buffer_limit_of(ring.buffer_limit, share),
            },
        ),
        c.io_backend == IoBackend::Auto && len <= 1024 * 1024 ==> io_backend_of(c, len, share)
            == IoBackend::InMemory,
        c.io_backend == IoBackend::Auto && len > 1024 * 1024 ==> io_backend_of(c, len, share)
            == IoBackend::RingBuf(RingBufSettings { buffer_size: 16384, buffer_limit: share }),
        ring_with_share(default_ring(), share) == (RingBufSettings {
            buffer_size: 16384,
            buffer_limit: share,
        }),
{
}

/// The bitmask parser reads records of 1 to 63 fields, untrimmed, without comments, where
/// quotes toggle and are escaped by doubling them or not at all.
pub open spec fn bitmask_reads(c: Config) -> bool {
    &&& c.field_count matches Some(n) && 1 <= n <= 63
    &&& !c.trim
    &&& !c.flexible
    &&& c.comment is None
    &&& c.quote_handling == QuoteHandling::Toggle
    &&& c.quote is None || c.escape is None || c.quote == c.escape
}

/// Left to choose, the bitmask parser reads what it can, and the table-driven one the rest:
/// there always is one. A parser that is asked for is taken; and only the bitmask parser
/// can be refused, for what it does not read.
pub proof fn every_dialect_has_a_parser(c: Config)
    ensures
        c.parser_backend == ParserBackend::Auto ==> parser_backend_of(c) == Ok::<
            ParserBackend,
            Seq<char>,
        >(
            if bitmask_reads(c) {
                ParserBackend::Simd
            } else {
                ParserBackend::Dfa
            },
        ),
        c.parser_backend == ParserBackend::Dfa ==> parser_backend_of(c) == Ok::<
            ParserBackend,
            Seq<char>,
        >(ParserBackend::Dfa),
        c.parser_backend == ParserBackend::Simd ==> if bitmask_reads(c) {
            parser_backend_of(c) == Ok::<ParserBackend, Seq<char>>(ParserBackend::Simd)
        } else {
            parser_backend_of(c) is Err
        },
{
}

/// What the bitmask parser is refused for, the first of these that holds.
pub proof fn what_the_bitmask_parser_is_refused_for(c: Config)
    ensures
        simd_objection(c) == (if bitmask_reads(c) {
            None
        } else if c.field_count is None {
            Some("SIMD parser requires a fixed field count (Arity mode)"@)
        } else if c.field_count->0 < 1 || c.field_count->0 > 63 {
            Some("SIMD parser supports at most 63 fields per record"@)
        } else if c.trim {
            Some("SIMD parser does not support `trim`"@)
        } else if c.flexible {
            Some("SIMD parser does not support `flexible` (variable field count)"@)
        } else if c.comment is Some {
            Some("SIMD parser does not support comment lines"@)
        } else if c.quote_handling != QuoteHandling::Toggle {
            Some("SIMD parser only supports `QuoteHandling::Toggle`"@)
        } else {
            Some("SIMD parser does not yet support escape characters distinct from quote"@)
        }),
{
}

/// The first chunk is read from its start, or from behind the header; in every other one
/// a record boundary is looked for.
pub proof fn only_later_chunks_are_searched(v: ResolvedConfig, i: int)
    ensures
        i > 0 ==> v.mode(i) == FindRecordStart::Strict,
        v.config.has_headers ==> v.mode(0) == FindRecordStart::SkipHeaders,
        !v.config.has_headers ==> v.mode(0) == FindRecordStart::No,
{
}

/// What is resolved is what was asked for: but for the size of the chunks and the limit the
/// configuration stays as it is, the chunks cover the input, as many threads run as the
/// resolved limit allows, and each has its share of that limit.
pub proof fn what_is_resolved(v: ResolvedConfig, c: Config, host: Host, len: usize)
    requires
        v.resolves(c, host, len),
        host.wf(),
    ensures
        v.config == (Config {
            chunk_size: v.config.chunk_size,
            io_buffer_limit: v.config.io_buffer_limit,
            ..c
        }),
        c.chunk_size > 0 ==> v.config.chunk_size == c.chunk_size,
        c.chunk_size == 0 ==> v.config.chunk_size == (if v.parser_backend == ParserBackend::Simd {
            0x10_0000usize
        } else {
            0x4_0000usize
        }),
        v.config.io_buffer_limit == io_buffer_limit_of(c, host),
        v.file_size == len,
        len <= v.chunk_count * v.config.chunk_size,
        len > 0 ==> (v.chunk_count - 1) * v.config.chunk_size < len,
        is_thread_count(
            c,
            host,
            v.chunk_count as int,
            io_buffer_limit_of(c, host),
            v.thread_count as int,
        ),
        len > 0 ==> v.thread_count >= 1,
        v.share() == share_of(io_buffer_limit_of(c, host), v.thread_count),
{
}

} // verus!
