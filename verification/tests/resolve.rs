use csveee::config::Config;
use csveee::scheduler::resolve::{
    min_thread_buffer, per_thread_share, resolve_buffer_limit, resolve_io_backend,
    resolve_io_buffer_limit, resolve_ringbuf_settings, resolve_thread_count, ResolvedConfig,
    IN_MEMORY_FILE_SIZE_THRESHOLD,
};
use csveee::sys::Host;
use csveee::{IoBackend, RingBufSettings};

/// A machine with eight hardware threads and 16 GiB of memory.
fn host() -> Host {
    Host {
        allocation_granularity: 4096,
        available_parallelism: 8,
        total_ram: Some(16 << 30),
    }
}

#[test]
fn thread_count_capped_by_chunks() {
    let config = Config::default();
    assert!(resolve_thread_count(&config, &host(), 2, None) <= 2);
}

#[test]
fn thread_count_capped_by_the_buffer_limit() {
    let mut config = Config::default();
    config.concurrency = 64;
    let floor = min_thread_buffer(&host());

    // A limit covering four worker buffers funds at most four
    // workers, however many chunks and cores are on offer.
    let threads = resolve_thread_count(&config, &host(), 1024, Some(floor * 4));
    assert_eq!(threads, 4);
    // ...and each of those four gets its full share, not less.
    assert_eq!(per_thread_share(Some(floor * 4), threads), Some(floor));

    // An unbounded budget leaves the other terms in charge.
    assert_eq!(resolve_thread_count(&config, &host(), 1024, None), 64);
}

#[test]
fn a_limit_below_one_buffer_still_runs_one_thread() {
    let mut config = Config::default();
    config.concurrency = 8;
    let floor = min_thread_buffer(&host());

    // Too small for even a single worker: we do not round the share
    // up to the floor (that would overshoot the caller's total), and
    // we do not resolve to zero threads. The backend rejects it with
    // a precise message instead.
    let threads = resolve_thread_count(&config, &host(), 1024, Some(floor / 4));
    assert_eq!(threads, 1);
    assert_eq!(per_thread_share(Some(floor / 4), threads), Some(floor / 4));
}

#[test]
fn buffer_limit_is_split_across_workers() {
    // The contract users see: state a total, each worker gets 1/T.
    assert_eq!(per_thread_share(Some(64 * 1024), 4), Some(16 * 1024));
    assert_eq!(per_thread_share(Some(64 * 1024), 1), Some(64 * 1024));
    // Unbounded stays unbounded.
    assert_eq!(per_thread_share(None, 8), None);
}

#[test]
fn the_thread_cap_ignores_the_ring_buffers_working_size() {
    // The floor is backend-independent on purpose: it has to be
    // computable before `Auto` has picked a backend, so no backend's
    // settings may feed into it. A huge ring-buffer working size is
    // that backend's own problem — `RingBuf::new` rejects it by name
    // — and must not silently change how many threads we run.
    let mut config = Config::default();
    config.concurrency = 8;
    let limit = Some(min_thread_buffer(&host()) * 8);

    let baseline = resolve_thread_count(&config, &host(), 1024, limit);
    config.io_backend =
        IoBackend::RingBuf(RingBufSettings::default().buffer_size(64 * 1024 * 1024));
    assert_eq!(resolve_thread_count(&config, &host(), 1024, limit), baseline);
}

#[test]
fn auto_limit_is_half_of_ram() {
    let mut config = Config::default();
    config.io_buffer_limit = Some(0);
    let budget = resolve_io_buffer_limit(&config, &host());

    match host().total_ram {
        // Hosts that do not report RAM fall back to unbounded.
        None => assert_eq!(budget, None),
        Some(total_ram) => assert_eq!(budget, Some(total_ram / 2)),
    }

    // Explicit totals and `None` pass through as stated.
    config.io_buffer_limit = Some(4096);
    assert_eq!(resolve_io_buffer_limit(&config, &host()), Some(4096));
    config.io_buffer_limit = None;
    assert_eq!(resolve_io_buffer_limit(&config, &host()), None);
}

#[test]
fn chunk_count_via_resolve() {
    // for_file picks chunk_size = 256 KiB for DFA, so an empty file
    // yields zero chunks regardless of input size 0.
    let r = ResolvedConfig::for_file(&Config::default(), &host(), 0).unwrap();
    assert_eq!(r.chunk_count, 0);
    assert_ne!(r.config.chunk_size, 0, "auto sentinel must be resolved");

    let mut config = Config::default();
    config.chunk_size = 100;
    assert_eq!(
        ResolvedConfig::for_file(&config, &host(), 200).unwrap().chunk_count,
        2
    );
    assert_eq!(
        ResolvedConfig::for_file(&config, &host(), 250).unwrap().chunk_count,
        3
    );
}

#[test]
fn auto_backend_by_file_size() {
    let config = Config::default();
    let threshold = IN_MEMORY_FILE_SIZE_THRESHOLD;
    let backend = |fsize| resolve_io_backend(&config, fsize, None);
    // Resolution consumes the `Some(0)` sentinel: no parser limit to
    // share out leaves the ring buffer unbounded.
    let ring = IoBackend::RingBuf(resolve_ringbuf_settings(RingBufSettings::default(), None));

    // Small files → InMemory.
    assert_eq!(backend(1), IoBackend::InMemory);
    assert_eq!(backend(threshold), IoBackend::InMemory);
    // Larger files → RingBuf: it matches or beats mmap across
    // dialects, and avoids mmap's COW-fault penalty when escape
    // compaction writes to the buffer (see resolve_io_backend).
    assert_eq!(backend(threshold + 1), ring);
}

#[test]
fn auto_backend_ignores_the_memory_limit() {
    // Selection is a function of file size alone. `Auto` only
    // reaches for InMemory below the threshold, and thread_count is
    // capped by chunk_count, so the exposure it can create is a few
    // MiB — not worth letting a memory setting steer the choice.
    let config = Config::default();
    let tiny = Some(16 * 1024);
    assert_eq!(
        resolve_io_backend(&config, 64 * 1024, tiny),
        IoBackend::InMemory
    );
}

#[test]
fn the_tighter_cap_wins() {
    // Whichever side is tighter, in either direction.
    assert_eq!(resolve_buffer_limit(Some(4096), Some(8192)), Some(4096));
    assert_eq!(resolve_buffer_limit(Some(8192), Some(4096)), Some(4096));
    // Only the backend has an opinion: it stands alone.
    assert_eq!(resolve_buffer_limit(Some(4096), None), Some(4096));
    // Neither side bounds anything: unbounded.
    assert_eq!(resolve_buffer_limit(Some(0), None), None);
}

#[test]
fn no_opinion_takes_the_share_whichever_way_it_is_spelled() {
    // `Some(0)` is the auto sentinel and `None` is treated the same,
    // so neither can widen past the parser-level limit — a
    // per-thread setting only ever tightens.
    for no_opinion in [Some(0), None] {
        assert_eq!(resolve_buffer_limit(no_opinion, Some(1024)), Some(1024));
    }
}

#[test]
fn resolution_consumes_the_sentinel_and_leaves_the_working_size() {
    let stated = RingBufSettings::default().buffer_size(4096);
    assert_eq!(stated.buffer_limit, Some(0), "default is the sentinel");

    let resolved = resolve_ringbuf_settings(stated, Some(1024));
    assert_eq!(resolved.buffer_size, 4096, "working size passes through");
    assert_eq!(resolved.buffer_limit, Some(1024));
}

#[test]
fn the_share_reaches_the_selected_ring_buffer() {
    // The point of the payload: what comes out of resolution is a
    // backend carrying an effective per-thread cap, not a total that
    // something downstream has to remember to divide.
    let config = Config::default();
    let resolved = resolve_io_backend(&config, IN_MEMORY_FILE_SIZE_THRESHOLD + 1, Some(4096));
    assert_eq!(
        resolved,
        IoBackend::RingBuf(RingBufSettings::default().buffer_limit(Some(4096)))
    );

    // A caller's own per-thread bound composes with it as a min.
    let mut config = Config::default();
    config.io_backend = IoBackend::RingBuf(RingBufSettings::default().buffer_limit(Some(1024)));
    let resolved = resolve_io_backend(&config, 1, Some(4096));
    assert_eq!(
        resolved,
        IoBackend::RingBuf(RingBufSettings::default().buffer_limit(Some(1024)))
    );
}
