use csveee::config::Config;
use csveee::error::{lifted, Error, Position, UserError};
use csveee::io::memory::InMemoryIo;
use csveee::io::slice::{BytesFile, SliceSource};
use csveee::io::Input;
use csveee::parser::dfa::DfaChunkParser;
use csveee::parser::simd::SimdChunkParser;
use csveee::scheduler::dispatch::Scheduler;
use csveee::scheduler::resolve::ResolvedConfig;
use csveee::scheduler::{first_boundary, run_through, run_with};
use csveee::sys::Host;
use csveee::{IoBackend, ParserBackend, ParserBuilder, QuoteHandling, RecordTerminator};

type Rows = Vec<Vec<String>>;

fn rows(state: Rows, fields: &[&str]) -> Result<Rows, UserError> {
    let mut state = state;
    state.push(fields.iter().map(|f| f.to_string()).collect());
    Ok(state)
}

fn concat(states: Vec<Rows>) -> Rows {
    states.concat()
}

fn no_headers() -> Config {
    let mut config = Config::default();
    config.has_headers = false;
    config
}

/// Parse a file of these bytes, chunk by chunk.
fn chunked(config: Config, data: &[u8]) -> csveee::Result<Rows> {
    Scheduler::new(config).run::<Rows, str, _, _, _, _, _>(
        &BytesFile::new(data),
        Vec::new,
        rows,
        concat,
    )
}

/// Parse a stream of these bytes, in one pass.
fn streamed(config: Config, data: &[u8]) -> csveee::Result<Rows> {
    Scheduler::new(config).run_stream::<Rows, str, _, _, _, _, _>(
        SliceSource::new(data, 0),
        Vec::new,
        rows,
        concat,
    )
}

/// What comes out, with an error by its text.
fn shown(r: csveee::Result<Rows>) -> Result<Rows, String> {
    r.map_err(|e| e.message())
}

fn table(want: &[&[&str]]) -> Rows {
    want.iter()
        .map(|row| row.iter().map(|f| f.to_string()).collect())
        .collect()
}

#[test]
fn a_chunk_that_shows_no_boundary_is_not_lost() {
    let mut config = no_headers();
    config.chunk_size = 16;
    config.parser_backend = ParserBackend::Dfa;
    let data = b"z,zzzzzzzzzzzzz\nx\",\"y\nt,u\n";
    let want = table(&[&["z", "zzzzzzzzzzzzz"], &["x,y"], &["t", "u"]]);
    assert_eq!(chunked(config, data).unwrap(), want);
    assert_eq!(streamed(config, data).unwrap(), want);
    config.parser_backend = ParserBackend::Simd;
    config.field_count = Some(2);
    let data = b"z,zzzzzzzzzzzzz\nx\",\",y\nt,u\n";
    let want = table(&[&["z", "zzzzzzzzzzzzz"], &["x,", "y"], &["t", "u"]]);
    assert_eq!(chunked(config, data).unwrap(), want);
    assert_eq!(streamed(config, data).unwrap(), want);
}

#[test]
fn a_header_may_be_longer_than_a_chunk() {
    let data = b"\"a,b\nc,d\ne\"\n1,2\n";
    for backend in [ParserBackend::Dfa, ParserBackend::Simd] {
        for chunk_size in 1..20 {
            let mut config = Config::default();
            config.parser_backend = backend;
            config.field_count = Some(2);
            config.chunk_size = chunk_size;
            assert_eq!(chunked(config, data).unwrap(), table(&[&["1", "2"]]), "{chunk_size}");
        }
    }
}

#[test]
fn comments_behind_the_last_record_add_nothing() {
    let mut config = no_headers();
    config.comment = Some(b'#');
    config.terminator = RecordTerminator::Byte(b';');
    for data in [
        &b"a,b;#aa;c,d;"[..],
        &b"a,b;#aa,bb;#cc,dd;#ee,ff"[..],
        &b"#aa;b,c;#x;;#y"[..],
    ] {
        let whole = streamed(config, data).unwrap();
        for chunk_size in 1..data.len() + 2 {
            let mut config = config;
            config.chunk_size = chunk_size;
            assert_eq!(chunked(config, data).unwrap(), whole, "{chunk_size}");
        }
    }
}

#[test]
fn a_comment_ends_with_its_line() {
    let parser = || {
        ParserBuilder::new()
            .flexible()
            .comment(Some(b'#'))
            .has_headers(false)
    };
    let cases: [(RecordTerminator, &[u8]); 4] = [
        (RecordTerminator::cr(), b"#c\ra,b\r"),
        (RecordTerminator::lf(), b"#c\na,b\n"),
        (RecordTerminator::CRLF, b"#c\r\na,b\r\n"),
        (RecordTerminator::Byte(b';'), b"#c;a,b;"),
    ];
    for (terminator, data) in cases {
        for backend in [ParserBackend::Auto, ParserBackend::Dfa] {
            let got = parser()
                .terminator(terminator)
                .parser_backend(backend)
                .build()
                .parse_slice(data, Vec::new, rows, concat);
            assert_eq!(got.unwrap(), table(&[&["a", "b"]]));
        }
    }
}

/// Every word of up to `len` letters.
fn words(letters: &[u8], len: usize) -> Vec<Vec<u8>> {
    let mut all: Vec<Vec<u8>> = vec![Vec::new()];
    let mut from = 0;
    for _ in 0..len {
        let to = all.len();
        for i in from..to {
            for &b in letters {
                let mut word = all[i].clone();
                word.push(b);
                all.push(word);
            }
        }
        from = to;
    }
    all
}

/// Chunks of every size up to three bytes give what a stream gives.
fn chunks_agree_with_a_stream(config: Config, letters: &[u8], len: usize) {
    for data in words(letters, len) {
        for has_headers in [false, true] {
            let mut config = config;
            config.io_backend = IoBackend::InMemory;
            config.has_headers = has_headers;
            let whole = shown(streamed(config, &data));
            for chunk_size in 1..4 {
                config.chunk_size = chunk_size;
                let parts = shown(chunked(config, &data));
                assert_eq!(
                    parts,
                    whole,
                    "chunk_size={chunk_size} on {:?}",
                    String::from_utf8_lossy(&data),
                );
            }
        }
    }
}

#[test]
fn toggled_quotes_survive_every_cut() {
    let mut config = no_headers();
    config.parser_backend = ParserBackend::Dfa;
    chunks_agree_with_a_stream(config, b"a,\"\n", 6);
}

#[test]
fn literal_quotes_survive_every_cut() {
    let mut config = no_headers();
    config.parser_backend = ParserBackend::Dfa;
    config.quote_handling = QuoteHandling::Literal;
    chunks_agree_with_a_stream(config, b"a,\"\n", 6);
}

#[test]
fn strict_quotes_survive_every_cut() {
    let mut config = no_headers();
    config.parser_backend = ParserBackend::Dfa;
    config.quote_handling = QuoteHandling::Strict;
    chunks_agree_with_a_stream(config, b"a,\"\n", 6);
}

#[test]
fn comments_survive_every_cut() {
    let mut config = no_headers();
    config.parser_backend = ParserBackend::Dfa;
    config.comment = Some(b'#');
    chunks_agree_with_a_stream(config, b"a#\"\n", 6);
}

#[test]
fn escapes_survive_every_cut() {
    let mut config = no_headers();
    config.parser_backend = ParserBackend::Dfa;
    config.escape = Some(b'\\');
    chunks_agree_with_a_stream(config, b"a\\\"\n", 6);
}

#[test]
fn the_bitmask_parser_survives_every_cut() {
    let mut config = no_headers();
    config.parser_backend = ParserBackend::Simd;
    config.field_count = Some(1);
    chunks_agree_with_a_stream(config, b"a\"\n", 7);
}

#[test]
fn a_header_takes_the_first_record() {
    for data in words(b"a,\"\n", 6) {
        let mut config = no_headers();
        config.parser_backend = ParserBackend::Dfa;
        config.io_backend = IoBackend::InMemory;
        config.chunk_size = 2;
        if let Ok(all) = chunked(config, &data) {
            config.has_headers = true;
            let body = chunked(config, &data).unwrap();
            assert_eq!(body[..], all[all.len().min(1)..]);
        }
    }
}

#[test]
fn a_flexible_parser_counts_no_fields() {
    for chunk_size in 1..20 {
        let got = ParserBuilder::new()
            .flexible()
            .has_headers(false)
            .chunk_size(chunk_size)
            .build()
            .parse_slice(b"a\nb,c\n,,,\n\"d\",\n", Vec::new, rows, concat);
        assert_eq!(
            got.unwrap(),
            table(&[&["a"], &["b", "c"], &["", "", "", ""], &["d", ""]])
        );
    }
}

#[test]
fn a_header_that_the_dialect_turns_down_is_reported() {
    let data = b"aaaa\"b,c\n1,2\n";
    for chunk_size in [1, 3, 100] {
        let mut config = Config::default();
        config.quote_handling = QuoteHandling::Strict;
        config.chunk_size = chunk_size;
        for got in [chunked(config, data), streamed(config, data)] {
            assert!(matches!(
                got,
                Err(Error::InvalidQuote {
                    position: Position { byte_offset: 4 }
                })
            ));
        }
    }
}

#[test]
fn a_header_alone_yields_nothing() {
    for chunk_size in [1, 2, 100] {
        let mut config = Config::default();
        config.chunk_size = chunk_size;
        assert_eq!(chunked(config, b"a,b").unwrap(), table(&[]));
        assert_eq!(chunked(config, b"a,b\n").unwrap(), table(&[]));
    }
}

#[test]
fn the_first_boundary_is_behind_the_header() {
    let data = b"\n\"a\nb\",c\n1,2\n";
    let with = DfaChunkParser::new(Config::default());
    let mut ctx = InMemoryIo::new(data);
    assert_eq!(first_boundary(&with, data.len(), &mut ctx, None).unwrap(), Some(8));
    assert_eq!(first_boundary(&with, data.len(), &mut ctx, Some(8)).unwrap(), Some(8));
    let without = SimdChunkParser::new(no_headers());
    assert_eq!(first_boundary(&without, data.len(), &mut ctx, None).unwrap(), Some(0));
    let mut ctx = InMemoryIo::new(b"a,b");
    assert_eq!(first_boundary(&with, 3, &mut ctx, None).unwrap(), None);
}

/// An input that cannot be opened.
struct Gone;

impl Input for Gone {
    type Ctx = InMemoryIo<'static>;

    fn context(&self) -> std::io::Result<InMemoryIo<'static>> {
        Err(std::io::Error::other("gone"))
    }
}

#[test]
fn an_input_that_cannot_be_opened_is_reported() {
    let config = no_headers();
    let resolved = ResolvedConfig::for_slice(&config, &Host::default(), 4).unwrap();
    let parser = DfaChunkParser::new(resolved.config);
    let opened = run_with::<Rows, str, _, _, _, _, _, _>(
        &resolved, &parser, &Gone, Vec::new, rows, concat,
    );
    assert!(matches!(opened, Err(Error::IO(e)) if e.to_string() == "gone"));
    let refused = run_through::<Rows, str, _, _, _, _, _, _>(
        &resolved,
        &parser,
        &Gone,
        Err(std::io::Error::other("refused")),
        Vec::new,
        rows,
        concat,
    );
    assert!(matches!(refused, Err(Error::IO(e)) if e.to_string() == "refused"));
    let read = run_through::<Rows, str, _, _, _, _, _, _>(
        &resolved,
        &parser,
        &Gone,
        Ok(InMemoryIo::new(b"a,b\n")),
        Vec::new,
        rows,
        concat,
    );
    assert_eq!(read.unwrap(), table(&[&["a", "b"]]));
}

#[test]
fn a_file_without_a_size_is_reported() {
    let scheduler = Scheduler::new(no_headers());
    let file = BytesFile::new(b"a,b\n");
    let parse = |size| {
        scheduler.run_sized::<Rows, str, _, _, _, _, _>(&file, size, Vec::new, rows, concat)
    };
    let unknown = parse(Err(std::io::Error::other("no size")));
    assert!(matches!(unknown, Err(Error::IO(e)) if e.to_string() == "no size"));
    assert_eq!(parse(Ok(4)).unwrap(), table(&[&["a", "b"]]));
}

#[test]
fn an_io_result_is_lifted_as_it_is() {
    assert!(matches!(lifted(Ok(7u8)), Ok(7)));
    let failed = lifted::<u8>(Err(std::io::Error::other("no")));
    assert!(matches!(failed, Err(Error::IO(e)) if e.to_string() == "no"));
}

#[test]
fn invalid_text_is_reported_where_it_is() {
    let data = b"hello,\xFFworld\n";
    for chunk_size in [0, 3, 8] {
        let got = ParserBuilder::new()
            .flexible()
            .has_headers(false)
            .chunk_size(chunk_size)
            .build()
            .parse_slice(data, Vec::new, rows, concat);
        assert!(matches!(
            got,
            Err(Error::Utf8 {
                position: Position { byte_offset: 6 }
            })
        ));
    }
}

#[test]
fn invalid_text_behind_a_header_is_reported() {
    let data = b"\xFF,h\na,b\n#\xFE\nc,d\n";
    let mut config = Config::default();
    config.comment = Some(b'#');
    for chunk_size in 1..20 {
        config.chunk_size = chunk_size;
        for got in [chunked(config, data), streamed(config, data)] {
            assert!(matches!(
                got,
                Err(Error::Utf8 {
                    position: Position { byte_offset: 9 }
                })
            ));
        }
    }
}

#[test]
fn with_quoting_off_lines_are_split() {
    for data in words(b"a\";\n", 6) {
        let text = String::from_utf8(data.clone()).unwrap();
        let want: Rows = text
            .split('\n')
            .filter(|line| !line.is_empty())
            .map(|line| line.split(';').map(str::to_string).collect())
            .collect();
        let mut config = no_headers();
        config.quote = None;
        config.escape = None;
        config.delimiter = b';';
        config.terminator = RecordTerminator::lf();
        config.io_backend = IoBackend::InMemory;
        config.chunk_size = 2;
        assert_eq!(chunked(config, &data).unwrap(), want);
    }
}

#[test]
fn an_accumulator_that_turns_a_record_down_ends_the_parse() {
    let data = b"a\nb\nc\nd\n";
    for chunk_size in [2, 3, 100] {
        let got = ParserBuilder::new()
            .flexible()
            .has_headers(false)
            .chunk_size(chunk_size)
            .build()
            .parse_slice(
                data,
                || 0usize,
                |n: usize, fields: &[&str]| {
                    if fields[0] == "c" {
                        Err(UserError::Other(std::io::Error::other("no c")))
                    } else {
                        Ok(n + 1)
                    }
                },
                |counts: Vec<usize>| counts.iter().sum::<usize>(),
            );
        assert!(matches!(got, Err(Error::User(e)) if e.to_string() == "no c"));
    }
}

#[test]
fn a_short_record_is_counted() {
    let data = b"aa,bb,cc\nxx,yy\ndd,ee,ff\n";
    for chunk_size in [0, 4, 9, 16] {
        let got = ParserBuilder::new()
            .has_headers(false)
            .chunk_size(chunk_size)
            .build()
            .parse_slice(
                data,
                || 0usize,
                |n: usize, _fields: [&str; 3]| Ok(n + 1),
                |counts: Vec<usize>| counts.len(),
            );
        assert!(matches!(
            got,
            Err(Error::NumberOfFields {
                expected: 3,
                found: 2,
                position: Position { byte_offset: 9 }
            })
        ));
    }
}
