use csveee::config::Config;
use csveee::error::UserError;
use csveee::io::slice::{BytesFile, SliceSource};
use csveee::scheduler::dispatch::Scheduler;
use csveee::sys::Host;
use csveee::{IoBackend, ParserBackend, QuoteHandling, RecordTerminator, RingBufSettings};


fn no_headers_config() -> Config {
    let mut config = Config::default();
    config.has_headers = false;
    config
}

/// The accumulator that collects records as strings.
fn push_strings(
    state: Vec<Vec<String>>,
    fields: &[&str],
) -> Result<Vec<Vec<String>>, UserError> {
    let mut state = state;
    state.push(fields.iter().map(|s| s.to_string()).collect());
    Ok(state)
}

/// The merge that strings the records of all chunks together.
fn concat(states: Vec<Vec<Vec<String>>>) -> Vec<Vec<String>> {
    states.concat()
}

/// Parse a file of these bytes via the scheduler.
fn scheduler_parse(config: Config, csv_data: &[u8]) -> csveee::Result<Vec<Vec<String>>> {
    let file = BytesFile::new(csv_data);
    let scheduler = Scheduler::new(config);
    scheduler.run::<Vec<Vec<String>>, str, _, _, _, _, _>(
        &file,
        Vec::<Vec<String>>::new,
        push_strings,
        concat,
    )
}

/// Parse the same bytes via the slice path.
fn scheduler_parse_slice(config: Config, csv_data: &[u8]) -> csveee::Result<Vec<Vec<String>>> {
    let scheduler = Scheduler::new(config);
    scheduler.run_slice::<Vec<Vec<String>>, str, _, _, _, _>(
        csv_data,
        Vec::<Vec<String>>::new,
        push_strings,
        concat,
    )
}

/// Run `body` once per I/O backend, with the table-driven parser.
fn run_matrix<F: Fn(Config)>(base: Config, body: F) {
    body(base);
    for io_backend in [
        IoBackend::Mmap,
        IoBackend::RingBuf(RingBufSettings::default()),
        IoBackend::InMemory,
    ] {
        let mut config = base;
        config.io_backend = io_backend;
        config.parser_backend = ParserBackend::Dfa;
        body(config);
    }
}

/// The slice path must agree with the file path byte for byte. Run both
/// over the same input and compare, so any divergence in chunking,
/// speculation or the epilogue shows up as a mismatch rather than
/// needing an expectation hand-written per case.
fn assert_slice_matches_file(config: Config, csv_data: &[u8]) {
    let from_file = scheduler_parse(config.clone(), csv_data);
    let from_slice = scheduler_parse_slice(config.clone(), csv_data);
    match (from_file, from_slice) {
        (Ok(f), Ok(s)) => assert_eq!(
            f,
            s,
            "slice/file divergence on {:?} (chunk_size={})",
            String::from_utf8_lossy(csv_data),
            config.chunk_size,
        ),
        (Err(f), Err(s)) => assert_eq!(
            f.message(),
            s.message(),
            "slice/file error divergence on {:?}",
            String::from_utf8_lossy(csv_data),
        ),
        (f, s) => panic!(
            "slice/file disagree on success for {:?}: file={:?} slice={:?}",
            String::from_utf8_lossy(csv_data),
            f.is_ok(),
            s.is_ok(),
        ),
    }
}

/// Inputs picked to hit the seams: chunk-boundary-aligned records,
/// records longer than a chunk, quotes spanning boundaries (speculation,
/// and the reparse when it guesses wrong), and the degenerate
/// empty/no-trailing-newline cases.
const SEAM_CASES: &[&[u8]] = &[
    b"",
    b"a,b\n",
    b"a,b\nc,d\ne,f\ng,h\n",
    b"a,b\nc,d\ne,f\ng,h",
    b"\"aa\",\"bb\"\n\"cc\",\"dd\"\n\"ee\",\"ff\"\n",
    b"\"a,b\",\"c\nd\"\n\"e\",\"f\"\n",
    b"abcdefghij,klmnopqrst\nx,y\n",
    b"\"\",\"\"\n\"\",\"\"\n",
    b"a,\"b\"\"c\"\nd,\"e\nf\"\ng,h\n",
    // Terminator runs: at small chunk sizes a boundary lands inside
    // one, and a run longer than a chunk leaves a chunk record-less.
    b"a,b\n\n\n\nc,d\ne,f\n",
    b"\n\n\n\n\n\na,b\nc,d\n",
    b"a,b\nc,d\n\n\n\n\n",
    b"a,b\r\r\r\nc,d\r\ne,f\r\n",
    b"a,b\n\r\n\rc,d\r\n\ne,f\r\n",
    b"\n\n\n\n\n\n\n\n",
];

#[test]
fn slice_matches_file_across_chunk_sizes() {
    // Small chunk sizes force many chunks over tiny inputs, so every
    // record boundary lands at a different offset relative to a chunk.
    for &chunk_size in &[1, 2, 3, 5, 8, 10, 16, 64] {
        for &data in SEAM_CASES {
            let mut config = no_headers_config();
            config.chunk_size = chunk_size;
            config.concurrency = 4;
            assert_slice_matches_file(config, data);
        }
    }
}

/// `run_matrix` only varies the DFA, and SIMD needs a fixed field
/// count, so the run cases get their own sweep.
#[test]
fn terminator_runs_match_across_backends_and_chunk_sizes() {
    let run_cases: &[&[u8]] = &[
        b"a,b\n\n\n\nc,d\ne,f\n",
        b"\n\n\n\n\n\na,b\nc,d\n",
        b"a,b\nc,d\n\n\n\n\n",
        b"a,b\r\r\r\nc,d\r\ne,f\r\n",
        b"a,b\n\r\n\rc,d\r\n\ne,f\r\n",
    ];
    for &data in run_cases {
        let baseline = {
            let mut c = no_headers_config();
            c.field_count = Some(2);
            c.chunk_size = 1 << 20;
            scheduler_parse_slice(c, data).unwrap()
        };
        for &chunk_size in &[1, 2, 3, 5, 8, 10, 16, 64] {
            for backend in [ParserBackend::Dfa, ParserBackend::Simd] {
                let mut c = no_headers_config();
                c.field_count = Some(2);
                c.parser_backend = backend;
                c.chunk_size = chunk_size;
                c.concurrency = 4;
                let got = scheduler_parse_slice(c, data).unwrap_or_else(|e| {
                    panic!("{backend:?} chunk_size={chunk_size} on {data:?}: {e:?}")
                });
                assert_eq!(
                    got, baseline,
                    "{backend:?} chunk_size={chunk_size} on {data:?}"
                );
            }
        }
    }
}

#[test]
fn slice_matches_file_with_headers() {
    for &chunk_size in &[1, 4, 16] {
        let mut config = Config::default(); // has_headers = true
        config.chunk_size = chunk_size;
        config.concurrency = 4;
        assert_slice_matches_file(config, b"name,value\na,1\nb,2\nc,3\n");
    }
}

/// Inputs where a chunk can open at a field start whose field is
/// quoted — the case `Literal` and `Strict` read differently from
/// mid-field, and `find_record_start` sidesteps by scanning Toggle.
const QUOTE_SEAM_CASES: &[&[u8]] = &[
    b"p,\"m\nn\"\nt,u\n",
    b"\"x\",\"y\nz\"\n\"w\",\"v\"\n",
    b"a,\"b\"\"c\"\nd,e\n",
    // Toggle and Literal disagree on where this record ends, so
    // merge's reparse has to catch it.
    b"q\"w,\"e\nf\"\nt,u\n",
    // `Strict` must still reject, at the single-chunk offset.
    b"pp,x\"y\nt,u\n",
];

/// Chunking must not change what a dialect yields, at any boundary
/// offset. Broad guard; the regression it grew out of is
/// [`last_chunk_opening_on_a_quoted_field_start`].
#[test]
fn quote_handling_survives_every_chunk_boundary() {
    for qh in [
        QuoteHandling::Toggle,
        QuoteHandling::Literal,
        QuoteHandling::Strict,
    ] {
        for &data in QUOTE_SEAM_CASES {
            let parse = |chunk_size| {
                let mut c = no_headers_config();
                c.quote_handling = qh;
                c.chunk_size = chunk_size;
                c.concurrency = 4;
                scheduler_parse_slice(c, data).map_err(|e| e.message())
            };
            let baseline = parse(1 << 20);
            for &chunk_size in &[1, 2, 3, 5, 8, 10, 16, 64] {
                assert_eq!(
                    baseline,
                    parse(chunk_size),
                    "{qh:?} chunk_size={chunk_size} on {:?}",
                    String::from_utf8_lossy(data),
                );
            }
        }
    }
}

/// `z,zz…z\n` + `tail`, sized so `tail` begins exactly at the last
/// chunk boundary — no successor chunk to force merge's reparse, so a
/// chunk that fails speculation loses its records outright.
fn tail_at_last_boundary(chunk_size: usize, tail: &[u8]) -> Vec<u8> {
    assert!(chunk_size >= 3 && tail.len() <= chunk_size);
    let mut data = vec![b'z'; chunk_size];
    data[1] = b',';
    data[chunk_size - 1] = b'\n';
    data.extend_from_slice(tail);
    data
}

/// Regression: `Strict` made `InField` + quote a hard `Error`, so a
/// last chunk opening on a quoted field start failed every assumption
/// at both strict and lenient, and was skipped — losing `t,u`.
#[test]
fn last_chunk_opening_on_a_quoted_field_start() {
    let tails: &[&[u8]] = &[
        b"\"m\nn\"\nt,u\n",
        b"\"m\nn\"\n",
        b"\"m\",\"n\"\nt,u\n",
        b"q\"w,\"e\nf\"\n",
        b"x\"y\nt,u\n",
    ];
    for qh in [
        QuoteHandling::Toggle,
        QuoteHandling::Literal,
        QuoteHandling::Strict,
    ] {
        for &tail in tails {
            for &chunk_size in &[16, 24, 32, 64, 128] {
                let data = tail_at_last_boundary(chunk_size, tail);
                let parse = |cs| {
                    let mut c = no_headers_config();
                    c.quote_handling = qh;
                    c.chunk_size = cs;
                    c.concurrency = 4;
                    scheduler_parse_slice(c, &data).map_err(|e| e.message())
                };
                assert_eq!(
                    parse(1 << 20),
                    parse(chunk_size),
                    "{qh:?} chunk_size={chunk_size} on {:?}",
                    String::from_utf8_lossy(tail),
                );
            }
        }
    }
}

/// With a distinct escape byte, quote parity alone would miscount
/// `\\"`; the Toggle table keeps `InEscapedQuote`.
#[test]
fn distinct_escape_survives_every_chunk_boundary() {
    let tail: &[u8] = b"\"m\\\"n\nq\",r\nt,u\n";
    for qh in [
        QuoteHandling::Toggle,
        QuoteHandling::Literal,
        QuoteHandling::Strict,
    ] {
        for &chunk_size in &[24, 32, 64, 128] {
            let data = tail_at_last_boundary(chunk_size, tail);
            let parse = |cs| {
                let mut c = no_headers_config();
                c.quote_handling = qh;
                c.escape = Some(b'\\');
                c.chunk_size = cs;
                c.concurrency = 4;
                scheduler_parse_slice(c, &data).map_err(|e| e.message())
            };
            assert_eq!(
                parse(1 << 20),
                parse(chunk_size),
                "{qh:?} chunk_size={chunk_size}"
            );
        }
    }
}

/// Only `Assumption::InQuotesAfterEscape` models a chunk opening on
/// the byte after an escape: `OutOfQuotes` rejects, `InQuotes` scans
/// clean off the end — which merge reads as "no records" and skips.
#[test]
fn escaped_escape_split_across_a_boundary() {
    for &chunk_size in &[16, 24, 32, 64, 128] {
        // `z,"ww…\` fills the first chunk exactly, so the last chunk
        // opens on the second byte of a `\\` pair inside the quote.
        let mut data = Vec::from(*b"z,\"");
        data.resize(chunk_size - 1, b'w');
        data.push(b'\\');
        assert_eq!(data.len(), chunk_size);
        data.extend_from_slice(b"\\\"\nt,u\n");
        let parse = |cs| {
            let mut c = no_headers_config();
            c.escape = Some(b'\\');
            c.chunk_size = cs;
            c.concurrency = 4;
            scheduler_parse_slice(c, &data).map_err(|e| e.message())
        };
        assert_eq!(parse(1 << 20), parse(chunk_size), "chunk_size={chunk_size}");
    }
}

#[test]
fn slice_ignores_the_io_backend_setting() {
    // Every `IoBackend` names a way of reaching a file, so none of them
    // applies to a slice: all must fall through to `SliceIo` and parse
    // identically rather than erroring or diverging.
    //
    // Compared slice-against-slice, *not* against the file path, which
    // honours the setting.
    let run = |io_backend, data: &[u8]| {
        let mut config = no_headers_config();
        config.io_backend = io_backend;
        config.chunk_size = 4;
        config.concurrency = 4;
        scheduler_parse_slice(config, data).map_err(|e| e.message())
    };
    for &data in SEAM_CASES {
        // Auto is the baseline every explicit setting must reproduce.
        let baseline = run(IoBackend::Auto, data);
        for io_backend in [
            IoBackend::Mmap,
            IoBackend::RingBuf(RingBufSettings::default()),
            IoBackend::InMemory,
        ] {
            assert_eq!(
                baseline,
                run(io_backend, data),
                "slice result changed under io_backend {io_backend:?} for {:?}",
                String::from_utf8_lossy(data),
            );
        }
    }
}

#[test]
fn slice_leaves_caller_data_untouched() {
    // Escape compaction rewrites the buffer it parses; the caller's
    // slice must not be that buffer.
    let data = b"a,\"b\"\"c\",d\ne,\"f\ng\",h\n".to_vec();
    let before = data.clone();
    let mut config = no_headers_config();
    config.chunk_size = 4;
    config.concurrency = 4;
    let records = scheduler_parse_slice(config, &data).unwrap();
    assert_eq!(records[0], vec!["a", "b\"c", "d"]);
    assert_eq!(data, before, "parse_slice mutated the caller's bytes");
}

#[test]
fn slice_multi_chunk_long_record() {
    // One record far longer than a chunk: the reader must grow past the
    // nominal boundary to finish it.
    let long = "x".repeat(10_000);
    let data = format!("{long},{long}\nshort,row\n");
    let mut config = no_headers_config();
    config.chunk_size = 64;
    config.concurrency = 4;
    let records = scheduler_parse_slice(config, data.as_bytes()).unwrap();
    assert_eq!(records.len(), 2);
    assert_eq!(records[0], vec![long.clone(), long]);
    assert_eq!(records[1], vec!["short", "row"]);
}

#[test]
fn scheduler_simple_csv() {
    run_matrix(no_headers_config(), |config| {
        let records = scheduler_parse(config, b"a,b,c\n1,2,3\n4,5,6\n").unwrap();
        assert_eq!(
            records,
            vec![
                vec!["a", "b", "c"],
                vec!["1", "2", "3"],
                vec!["4", "5", "6"],
            ]
        );
    });
}

#[test]
fn scheduler_empty_file() {
    let records = scheduler_parse(no_headers_config(), b"").unwrap();
    assert!(records.is_empty());
}

/// Regression: a chunk that opens mid-quoted-field and contains a
/// balanced empty quoted field `""` scans cleanly under the
/// `OutOfQuotes` assumption (no out-of-quotes terminator, and the strict
/// probe stays quiet because `""`'s adjacent quotes look like valid
/// boundaries). `try_assumptions` used to short-circuit on that
/// `CleanNoBoundary` before trying `InQuotes`, which is the assumption
/// that actually finds the record — so the record was dropped.
///
/// `simd_diff` can't catch this: at concurrency 1 a small file is a
/// single chunk, so chunk-boundary speculation never runs. Force a tiny
/// `chunk_size` so the boundary lands inside the first record's quoted
/// field (byte 0 of chunk 1 is the previous field's closing quote).
#[test]
fn simd_clean_no_boundary_does_not_drop_empty_quoted_record() {
    for (term, data) in [
        (
            RecordTerminator::CRLF,
            &b"aaaaaaaa,\"qqqqq\"\r\naa,\"\"\r\n"[..],
        ),
        (RecordTerminator::lf(), &b"aaaaaaaa,\"qqqqq\"\naa,\"\"\n"[..]),
    ] {
        let mut config = no_headers_config();
        config.parser_backend = ParserBackend::Simd;
        config.field_count = Some(2);
        config.chunk_size = 15;
        config.terminator = term;
        let records = scheduler_parse(config, data).unwrap();
        assert_eq!(
            records,
            vec![vec!["aaaaaaaa", "qqqqq"], vec!["aa", ""]],
            "terminator {term:?}",
        );
    }
}

#[test]
fn scheduler_single_record() {
    let records = scheduler_parse(no_headers_config(), b"hello,world\n").unwrap();
    assert_eq!(records, vec![vec!["hello", "world"]]);
}

#[test]
fn scheduler_no_trailing_newline() {
    let records = scheduler_parse(no_headers_config(), b"a,b\n1,2").unwrap();
    assert_eq!(records, vec![vec!["a", "b"], vec!["1", "2"]]);
}

#[test]
fn scheduler_quoted_fields() {
    let records = scheduler_parse(
        no_headers_config(),
        b"\"hello\",\"world\"\n\"foo\",\"bar\"\n",
    )
    .unwrap();
    assert_eq!(records, vec![vec!["hello", "world"], vec!["foo", "bar"]]);
}

#[test]
fn scheduler_multi_chunk() {
    let mut base = no_headers_config();
    base.chunk_size = 8;
    base.concurrency = 2;

    run_matrix(base, |config| {
        let records = scheduler_parse(config, b"a,b\nc,d\ne,f\ng,h\n").unwrap();
        assert_eq!(
            records,
            vec![
                vec!["a", "b"],
                vec!["c", "d"],
                vec!["e", "f"],
                vec!["g", "h"],
            ]
        );
    });
}

#[test]
fn scheduler_multi_chunk_quoted() {
    let mut base = no_headers_config();
    base.chunk_size = 10;
    base.concurrency = 4;

    run_matrix(base, |config| {
        let records =
            scheduler_parse(config, b"\"aa\",\"bb\"\n\"cc\",\"dd\"\n\"ee\",\"ff\"\n").unwrap();
        assert_eq!(
            records,
            vec![vec!["aa", "bb"], vec!["cc", "dd"], vec!["ee", "ff"],]
        );
    });
}

#[test]
fn scheduler_record_spans_chunks() {
    let mut config = no_headers_config();
    config.chunk_size = 5;
    config.concurrency = 4;

    let records = scheduler_parse(config, b"abcdefghij,klmnopqrst\nx,y\n").unwrap();
    assert_eq!(
        records,
        vec![vec!["abcdefghij", "klmnopqrst"], vec!["x", "y"],]
    );
}

#[test]
fn scheduler_headers_skipped() {
    let records = scheduler_parse(
        Config::default(), // has_headers = true
        b"name,value\na,1\nb,2\n",
    )
    .unwrap();
    assert_eq!(records, vec![vec!["a", "1"], vec!["b", "2"]]);
}

#[test]
fn scheduler_headers_skipped_with_comments() {
    let mut config = Config::default(); // has_headers = true
    config.comment = Some(b'#');
    let records = scheduler_parse(
        config,
        b"# comment\n# another\nname,value\n# mid\na,1\nb,2\n",
    )
    .unwrap();
    assert_eq!(records, vec![vec!["a", "1"], vec!["b", "2"]]);
}

#[test]
fn scheduler_ringbuf_backend() {
    let mut config = no_headers_config();
    config.io_backend = IoBackend::RingBuf(RingBufSettings::default());
    config.chunk_size = 8;
    config.concurrency = 2;

    let records = scheduler_parse(config, b"a,b\nc,d\ne,f\ng,h\n").unwrap();
    assert_eq!(
        records,
        vec![
            vec!["a", "b"],
            vec!["c", "d"],
            vec!["e", "f"],
            vec!["g", "h"],
        ]
    );
}

#[test]
fn scheduler_in_memory_backend() {
    let mut config = no_headers_config();
    config.io_backend = IoBackend::InMemory;
    config.chunk_size = 8;
    config.concurrency = 2;

    let records = scheduler_parse(config, b"a,b\nc,d\ne,f\ng,h\n").unwrap();
    assert_eq!(
        records,
        vec![
            vec!["a", "b"],
            vec!["c", "d"],
            vec!["e", "f"],
            vec!["g", "h"],
        ]
    );
}

#[test]
fn the_in_memory_backend_does_not_enforce_the_memory_limit() {
    let mut config = no_headers_config();
    config.io_backend = IoBackend::InMemory;
    config.io_buffer_limit = Some(8);

    let records = scheduler_parse(config, b"a,b\nc,d\ne,f\ng,h\n").unwrap();
    assert_eq!(records.len(), 4);
    assert_eq!(records[0], vec!["a", "b"]);
}

#[test]
fn a_tight_limit_still_parses_under_auto() {
    let granularity = Host::default().allocation_granularity;
    let mut data = Vec::new();
    while data.len() < granularity * 2 {
        data.extend_from_slice(b"aaaa,bbbb\n");
    }
    let expected_rows = data.len() / 10;

    let mut config = no_headers_config();
    config.io_backend = IoBackend::Auto;
    config.io_buffer_limit = Some(granularity);
    assert!(data.len() > granularity);

    let records = scheduler_parse(config, &data).unwrap();
    assert_eq!(records.len(), expected_rows);
    assert_eq!(records[0], vec!["aaaa", "bbbb"]);
}

#[test]
fn scheduler_trim_fields() {
    let mut config = no_headers_config();
    config.trim = true;

    let records = scheduler_parse(config, b"  hello , world \n\tfoo\t,  bar  \n").unwrap();
    assert_eq!(records, vec![vec!["hello", "world"], vec!["foo", "bar"],]);
}

#[test]
fn scheduler_error_position_is_absolute() {
    let mut base = no_headers_config();
    base.chunk_size = 8;
    base.concurrency = 2;

    run_matrix(base, |config| {
        let err = scheduler_parse(config, b"aa,bb\ncc,dd\n\"unclosed\n").unwrap_err();
        match err {
            csveee::Error::UnclosedQuote { position } => {
                assert_eq!(position.byte_offset, 12);
            }
            e => panic!("expected UnclosedQuote, got {e:?}"),
        }
    });
}

/// Run the streaming entry point against an in-memory byte slice.
fn stream_parse(config: Config, csv_data: &[u8]) -> csveee::Result<Vec<Vec<String>>> {
    let scheduler = Scheduler::new(config);
    scheduler.run_stream::<Vec<Vec<String>>, str, _, _, _, _, _>(
        SliceSource::new(csv_data, 0),
        Vec::<Vec<String>>::new,
        push_strings,
        concat,
    )
}

#[test]
fn stream_simple_csv() {
    let records = stream_parse(no_headers_config(), b"a,b,c\n1,2,3\n4,5,6\n").unwrap();
    assert_eq!(
        records,
        vec![
            vec!["a", "b", "c"],
            vec!["1", "2", "3"],
            vec!["4", "5", "6"],
        ]
    );
}

#[test]
fn stream_skips_headers() {
    let records = stream_parse(Config::default(), b"name,value\na,1\nb,2\n").unwrap();
    assert_eq!(records, vec![vec!["a", "1"], vec!["b", "2"]]);
}

#[test]
fn stream_quoted_with_embedded_newline() {
    let records = stream_parse(no_headers_config(), b"\"a\nb\",\"c\"\n\"d\",\"e\"\n").unwrap();
    assert_eq!(records, vec![vec!["a\nb", "c"], vec!["d", "e"]]);
}

#[test]
fn stream_no_trailing_newline() {
    let records = stream_parse(no_headers_config(), b"a,b\n1,2").unwrap();
    assert_eq!(records, vec![vec!["a", "b"], vec!["1", "2"]]);
}

#[test]
fn stream_empty_input() {
    let records = stream_parse(no_headers_config(), b"").unwrap();
    assert!(records.is_empty());
}

#[test]
fn stream_growing_record() {
    // A single record longer than the default io_buffer_size (16 KiB)
    // forces RingBuf::grow during streaming.
    let mut field = String::new();
    for i in 0..10000 {
        if i > 0 {
            field.push(',');
        }
        field.push_str(&format!("v{}", i));
    }
    let mut csv = field.clone();
    csv.push('\n');
    let records = stream_parse(no_headers_config(), csv.as_bytes()).unwrap();
    assert_eq!(records.len(), 1);
    assert_eq!(records[0].len(), 10000);
}

#[test]
fn stream_unclosed_quote_errors() {
    let err = stream_parse(no_headers_config(), b"a,b\n\"unclosed\n").unwrap_err();
    assert!(matches!(err, csveee::Error::UnclosedQuote { .. }));
}
