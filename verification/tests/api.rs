use csveee::config::Config;
use csveee::error::UserError;
use csveee::io::slice::{BytesFile, SliceSource};
use csveee::io::Source;
use csveee::parser::api::try_from_config;
use csveee::sys::Host;
use csveee::{
    Arity, Error, IoBackend, Parser, ParserBackend, ParserBuilder, Position, QuoteHandling,
    RecordTerminator, RingBufSettings, Variadic,
};

/// The states of all chunks, one after the other.
fn concat<T: Clone>(states: Vec<Vec<T>>) -> Vec<T> {
    states.concat()
}

fn cities(
    state: Vec<String>,
    [_name, _age, city]: [&str; 3],
) -> Result<Vec<String>, UserError> {
    let mut state = state;
    state.push(city.to_string());
    Ok(state)
}

fn rows(state: Vec<Vec<String>>, fields: &[&str]) -> Result<Vec<Vec<String>>, UserError> {
    let mut state = state;
    state.push(fields.iter().map(|f| f.to_string()).collect());
    Ok(state)
}

fn byte_rows(
    state: Vec<Vec<Vec<u8>>>,
    fields: &[&[u8]],
) -> Result<Vec<Vec<Vec<u8>>>, UserError> {
    let mut state = state;
    state.push(fields.iter().map(|f| f.to_vec()).collect());
    Ok(state)
}

const PEOPLE: &[u8] = b"name,age,city\nada,36,London\ngrace,85,Arlington\n";

#[test]
fn arity_parse_takes_fields_as_an_array() {
    let mut parser = Parser::new();
    let got = parser
        .parse(&BytesFile::new(PEOPLE), Vec::<String>::new, cities, concat)
        .unwrap();
    assert_eq!(got, vec!["London", "Arlington"]);
}

#[test]
fn the_three_inputs_give_the_same() {
    let mut parser = Parser::default();
    let file = parser
        .parse(&BytesFile::new(PEOPLE), Vec::<String>::new, cities, concat)
        .unwrap();
    let slice = parser
        .parse_slice(PEOPLE, Vec::<String>::new, cities, concat)
        .unwrap();
    let stream = parser
        .parse_stream(SliceSource::new(PEOPLE, 0), Vec::<String>::new, cities, concat)
        .unwrap();
    assert_eq!(file, slice);
    assert_eq!(file, stream);
}

#[test]
fn an_array_of_another_length_is_reported() {
    let mut parser = Parser::new();
    let err = parser
        .parse_slice(
            b"a,b,c\n1,2,3\n4,5\n",
            Vec::<String>::new,
            cities,
            concat,
        )
        .unwrap_err();
    match err {
        Error::NumberOfFields {
            expected,
            found,
            position,
        } => {
            assert_eq!(expected, 3);
            assert_eq!(found, 2);
            assert_eq!(position, Position { byte_offset: 12 });
        }
        e => panic!("expected NumberOfFields, got {e:?}"),
    }
}

#[test]
fn arity_parse_of_raw_bytes() {
    let pairs = |state: Vec<(Vec<u8>, Vec<u8>)>,
                 [a, b]: [&[u8]; 2]|
     -> Result<Vec<(Vec<u8>, Vec<u8>)>, UserError> {
        let mut state = state;
        state.push((a.to_vec(), b.to_vec()));
        Ok(state)
    };
    let data: &[u8] = b"a,\xff\nb,\xfe\n";
    let mut parser = ParserBuilder::new().has_headers(false).bytes().build();
    let want = vec![
        (b"a".to_vec(), b"\xff".to_vec()),
        (b"b".to_vec(), b"\xfe".to_vec()),
    ];
    let slice = parser.parse_slice(data, Vec::new, pairs, concat).unwrap();
    assert_eq!(slice, want);
    let file = parser
        .parse(&BytesFile::new(data), Vec::new, pairs, concat)
        .unwrap();
    assert_eq!(file, want);
    let stream = parser
        .parse_stream(SliceSource::new(data, 0), Vec::new, pairs, concat)
        .unwrap();
    assert_eq!(stream, want);
}

#[test]
fn flexible_parse_takes_records_of_any_width() {
    let data: &[u8] = b"a\nb,c\nd,e,f\n";
    let mut parser = ParserBuilder::new().has_headers(false).flexible().build();
    let want = vec![vec!["a"], vec!["b", "c"], vec!["d", "e", "f"]];
    assert_eq!(
        parser.parse_slice(data, Vec::new, rows, concat).unwrap(),
        want
    );
    assert_eq!(
        parser
            .parse(&BytesFile::new(data), Vec::new, rows, concat)
            .unwrap(),
        want
    );
    assert_eq!(
        parser
            .parse_stream(SliceSource::new(data, 0), Vec::new, rows, concat)
            .unwrap(),
        want
    );
}

#[test]
fn variadic_parse_of_raw_bytes() {
    let data: &[u8] = b"x,y\n1,\xf0\n";
    let mut parser = ParserBuilder::new().variadic().bytes().build();
    let want = vec![vec![b"1".to_vec(), b"\xf0".to_vec()]];
    assert_eq!(
        parser.parse_slice(data, Vec::new, byte_rows, concat).unwrap(),
        want
    );
    assert_eq!(
        parser
            .parse(&BytesFile::new(data), Vec::new, byte_rows, concat)
            .unwrap(),
        want
    );
    assert_eq!(
        parser
            .parse_stream(SliceSource::new(data, 0), Vec::new, byte_rows, concat)
            .unwrap(),
        want
    );
}

#[test]
fn an_empty_input_merges_no_states() {
    let mut parser = ParserBuilder::new().variadic().build();
    let count = parser
        .parse_slice(b"", Vec::new, rows, |states: Vec<Vec<Vec<String>>>| states.len())
        .unwrap();
    assert_eq!(count, 0);
    // a stream is one pass, also over nothing
    let count = parser
        .parse_stream(
            SliceSource::new(b"", 0),
            Vec::new,
            rows,
            |states: Vec<Vec<Vec<String>>>| states.len(),
        )
        .unwrap();
    assert_eq!(count, 1);
}

#[test]
fn the_error_of_an_accumulator_comes_back() {
    let refuse = |_state: usize, _fields: &[&str]| -> Result<usize, UserError> {
        Err(UserError::Other(std::io::Error::other("too long")))
    };
    let mut parser = ParserBuilder::new().has_headers(false).variadic().build();
    let err = parser
        .parse_slice(b"a,b\n", || 0usize, refuse, |states: Vec<usize>| states.len())
        .unwrap_err();
    assert!(matches!(err, Error::User(_)));
    assert!(err.position().is_none());
    assert_eq!(err.message(), "too long");
}

#[test]
fn a_parser_error_of_an_accumulator_is_not_wrapped() {
    let refuse = |_state: usize, _fields: &[&str]| -> Result<usize, UserError> {
        Err(UserError::Parser(Error::InvalidConfig("not this one")))
    };
    let mut parser = ParserBuilder::new().has_headers(false).variadic().build();
    let err = parser
        .parse_slice(b"a,b\n", || 0usize, refuse, |states: Vec<usize>| states.len())
        .unwrap_err();
    assert!(matches!(err, Error::InvalidConfig("not this one")));
}

/// A source that fails after its first bytes.
struct Broken {
    read: bool,
}

impl Source for Broken {
    fn read(&mut self, buf: &mut [u8]) -> std::io::Result<usize> {
        if self.read {
            return Err(std::io::Error::other("gone"));
        }
        self.read = true;
        buf[..4].copy_from_slice(b"a,b\n");
        Ok(4)
    }
}

#[test]
fn a_source_that_fails_is_an_io_error() {
    let mut parser = ParserBuilder::new().has_headers(false).variadic().build();
    let err = parser
        .parse_stream(Broken { read: false }, Vec::new, rows, concat)
        .unwrap_err();
    assert!(matches!(err, Error::IO(_)));
    assert_eq!(err.message(), "gone");
}

#[test]
fn text_that_is_not_utf8_is_an_error_at_its_offset() {
    let mut parser = ParserBuilder::new().has_headers(false).variadic().build();
    let err = parser
        .parse_slice(b"ok,\xc3\xa9\nbad,\xff\n", Vec::new, rows, concat)
        .unwrap_err();
    assert_eq!(err.position(), Some(&Position { byte_offset: 10 }));
    assert_eq!(err.message(), "invalid UTF-8 at byte 10");
    // what is valid comes back as it is
    let got = parser
        .parse_slice("é,ü\n".as_bytes(), Vec::new, rows, concat)
        .unwrap();
    assert_eq!(got, vec![vec!["é", "ü"]]);
}

#[test]
fn a_sequence_cut_off_by_the_end_is_an_error() {
    let mut parser = ParserBuilder::new().has_headers(false).variadic().build();
    let err = parser
        .parse_slice(b"a,\xe2\x82", Vec::new, rows, concat)
        .unwrap_err();
    assert!(matches!(err, Error::Utf8 { position } if position.byte_offset == 2));
}

#[test]
fn every_error_says_what_it_is() {
    let at = Position { byte_offset: 120 };
    assert_eq!(
        Error::InvalidConfig("no").message(),
        "invalid parser configuration: no"
    );
    assert_eq!(
        Error::NumberOfFields {
            expected: 3,
            found: 10,
            position: at,
        }
        .message(),
        "expected 3 fields, found 10 in the record at byte 120"
    );
    assert_eq!(
        Error::Utf8 { position: at }.message(),
        "invalid UTF-8 at byte 120"
    );
    assert_eq!(
        Error::InvalidQuote { position: at }.message(),
        "quote not at field boundary at byte 120"
    );
    assert_eq!(
        Error::UnclosedQuote {
            position: Position { byte_offset: 0 },
        }
        .message(),
        "unterminated quoted field at byte 0"
    );
    assert_eq!(
        Error::from(std::io::Error::other("disk")).message(),
        "disk"
    );
    assert_eq!(
        Error::Utf8 {
            position: Position {
                byte_offset: usize::MAX,
            },
        }
        .message(),
        format!("invalid UTF-8 at byte {}", usize::MAX)
    );
}

#[test]
fn every_setting_reaches_the_parser() {
    // semicolons, single quotes, backslash escapes, comments, trimming
    let mut parser = ParserBuilder::new()
        .delimiter(b';')
        .terminator(RecordTerminator::Byte(b'|'))
        .quote(Some(b'\''))
        .escape(Some(b'\\'))
        .comment(Some(b'#'))
        .quote_handling(QuoteHandling::Strict)
        .has_headers(false)
        .trim(true)
        .parser_backend(ParserBackend::Dfa)
        .io_backend(IoBackend::InMemory)
        .concurrency(2)
        .chunk_size(8)
        .io_buffer_limit(None)
        .flexible()
        .build();
    let got = parser
        .parse_slice(
            b" a ;'b\\';'|# not this; one\nc; d |",
            Vec::new,
            rows,
            concat,
        )
        .unwrap();
    assert_eq!(got, vec![vec!["a", "b';"], vec!["c", "d"]]);
}

#[test]
fn a_cloned_builder_builds_the_same_parser() {
    let builder = ParserBuilder::new().delimiter(b';').has_headers(false).variadic();
    let copy = builder.clone();
    let one = builder
        .build()
        .parse_slice(b"a;b\n", Vec::new, rows, concat)
        .unwrap();
    let other = copy
        .build()
        .parse_slice(b"a;b\n", Vec::new, rows, concat)
        .unwrap();
    assert_eq!(one, other);
    assert_eq!(one, vec![vec!["a", "b"]]);
}

/// The reason for which a configuration is turned down.
fn reason<T>(r: csveee::Result<T>) -> &'static str {
    match r {
        Err(Error::InvalidConfig(why)) => why,
        Err(e) => panic!("expected InvalidConfig, got {e:?}"),
        Ok(_) => panic!("expected an error"),
    }
}

#[test]
fn every_fault_of_a_configuration_has_its_reason() {
    let ring = |size, limit| {
        IoBackend::RingBuf(RingBufSettings::default().buffer_size(size).buffer_limit(limit))
    };
    assert_eq!(
        reason(ParserBuilder::new().io_backend(ring(0, None)).try_build()),
        "ring buffer buffer_size must be at least 1"
    );
    assert_eq!(
        reason(ParserBuilder::new().io_backend(ring(64, Some(32))).try_build()),
        "ring buffer buffer_size must be <= its buffer_limit"
    );
    assert_eq!(
        reason(
            ParserBuilder::new()
                .io_backend(ring(64, None))
                .io_buffer_limit(Some(32))
                .try_build()
        ),
        "io_buffer_limit is a total across threads and must leave room for at least one ring \
         buffer"
    );
    assert_eq!(
        reason(ParserBuilder::new().delimiter(b'"').try_build()),
        "delimiter, terminator, quote, escape, and comment must be distinct"
    );
    assert_eq!(
        reason(ParserBuilder::new().quote(None).try_build()),
        "quote must be set when escape is set"
    );
    assert_eq!(
        reason(ParserBuilder::new().delimiter(0xA6).try_build()),
        "delimiter, terminator, quote, escape, and comment must be ASCII in text mode; use \
         `ParserBuilder::bytes` for non-UTF-8 encodings"
    );
    // raw bytes may be separated by any byte
    assert!(ParserBuilder::new().delimiter(0xA6).bytes().try_build().is_ok());
}

#[test]
fn an_explicit_backend_is_checked_when_the_parser_is_built() {
    let simd = || ParserBuilder::new().parser_backend(ParserBackend::Simd);
    assert!(simd().try_build().is_ok());
    assert_eq!(
        reason(simd().trim(true).try_build()),
        "SIMD parser does not support `trim`"
    );
    assert_eq!(
        reason(simd().quote_handling(QuoteHandling::Literal).try_build()),
        "SIMD parser only supports `QuoteHandling::Toggle`"
    );
    assert_eq!(
        reason(simd().comment(Some(b'#')).try_build()),
        "SIMD parser does not support comment lines"
    );
    assert_eq!(
        reason(simd().escape(Some(b'\\')).try_build()),
        "SIMD parser does not yet support escape characters distinct from quote"
    );
    assert_eq!(
        reason(simd().variadic().try_build()),
        "SIMD parser requires a fixed field count (Arity mode)"
    );
    // `Auto` falls back silently
    assert!(ParserBuilder::new().trim(true).try_build().is_ok());
}

#[test]
fn supports_backend_gives_the_reason() {
    let plain = ParserBuilder::new();
    assert_eq!(plain.supports_backend(ParserBackend::Auto), Ok(()));
    assert_eq!(plain.supports_backend(ParserBackend::Dfa), Ok(()));
    assert_eq!(plain.supports_backend(ParserBackend::Simd), Ok(()));
    let trimmed = ParserBuilder::new().trim(true);
    assert_eq!(trimmed.supports_backend(ParserBackend::Dfa), Ok(()));
    assert_eq!(
        trimmed.supports_backend(ParserBackend::Simd),
        Err("SIMD parser does not support `trim`")
    );
    let flexible = ParserBuilder::new().flexible();
    assert_eq!(
        flexible.supports_backend(ParserBackend::Simd),
        Err("SIMD parser does not support `flexible` (variable field count)")
    );
}

#[test]
fn a_parser_can_be_made_from_a_configuration() {
    assert!(try_from_config::<Arity, str>(Config::default()).is_ok());
    let mut config = Config::default();
    config.quote = None;
    assert_eq!(
        reason(try_from_config::<Variadic, [u8]>(config)),
        "quote must be set when escape is set"
    );
}

#[test]
fn a_field_count_over_the_limit_is_reported_when_the_parse_runs() {
    let wide = |state: usize, _fields: [&str; 64]| -> Result<usize, UserError> { Ok(state + 1) };
    let line = vec!["x"; 64].join(",");
    let mut simd = ParserBuilder::new()
        .has_headers(false)
        .parser_backend(ParserBackend::Simd)
        .build();
    assert_eq!(
        reason(simd.parse_slice(line.as_bytes(), || 0usize, wide, |s: Vec<usize>| s.len())),
        "SIMD parser supports at most 63 fields per record"
    );
    let mut auto = ParserBuilder::new().has_headers(false).build();
    let counts = auto
        .parse_slice(line.as_bytes(), || 0usize, wide, |s: Vec<usize>| s)
        .unwrap();
    assert_eq!(counts, vec![1]);
}

#[test]
fn the_machine_bounds_the_buffers() {
    let host = Host {
        allocation_granularity: 4096,
        available_parallelism: 4,
        total_ram: Some(8192),
    };
    let mut parser = ParserBuilder::new()
        .has_headers(false)
        .variadic()
        .build()
        .with_host(host);
    // half of the memory is one buffer of 4096 bytes, and the default ring is larger
    let err = parser
        .parse_slice(b"a,b\n", Vec::new, rows, concat)
        .unwrap_err();
    assert!(matches!(err, Error::IO(_)));
    assert!(err.message().contains("would exceed limit (4096 bytes)"));
}

#[test]
fn a_record_over_the_limit_of_a_growing_buffer_is_an_error() {
    let mut data = vec![b'x'; 40_000];
    data.push(b'\n');
    let mut parser = ParserBuilder::new()
        .has_headers(false)
        .io_buffer_limit(Some(16384))
        .variadic()
        .build();
    let err = parser
        .parse_slice(&data, Vec::new, rows, concat)
        .unwrap_err();
    assert!(matches!(err, Error::IO(_)));
    assert!(err
        .message()
        .contains("ring buffer growth (32768 bytes) would exceed limit (16384 bytes)"));
}
