use csveee::config::Config;
use csveee::error::{Error, Position, UserError};
use csveee::io::ringbuf::buf::RingBuf;
use csveee::io::ringbuf::reader::RingBufChunkReader;
use csveee::io::slice::{BytesFile, SliceSource};
use csveee::io::ChunkReader;
use csveee::scheduler::dispatch::Scheduler;
use csveee::scheduler::slot::WriteOnceSlot;
use csveee::sys::Host;
use csveee::{IoBackend, ParserBackend, ParserBuilder, QuoteHandling, RingBufSettings};

type Rows = Vec<Vec<String>>;

fn rows(state: Rows, fields: &[&str]) -> Result<Rows, UserError> {
    let mut state = state;
    state.push(fields.iter().map(|f| f.to_string()).collect());
    Ok(state)
}

fn concat(states: Vec<Rows>) -> Rows {
    states.concat()
}

/// A machine that hands out memory byte by byte.
fn fine_grained() -> Host {
    let mut host = Host::default();
    host.allocation_granularity = 1;
    host
}

/// Parse a file of these bytes through ring buffers of 16 bytes that may grow to 64.
fn small_ring(config: Config, data: &[u8]) -> csveee::Result<Rows> {
    let mut config = config;
    config.has_headers = false;
    config.io_backend =
        IoBackend::RingBuf(RingBufSettings::default().buffer_size(16).buffer_limit(Some(64)));
    Scheduler::with_host(config, fine_grained()).run::<Rows, str, _, _, _, _, _>(
        &BytesFile::new(data),
        Vec::new,
        rows,
        concat,
    )
}

fn dfa() -> Config {
    let mut config = Config::default();
    config.parser_backend = ParserBackend::Dfa;
    config
}

#[test]
fn an_input_larger_than_the_ring_is_read_record_by_record() {
    let mut data = Vec::new();
    let mut want: Rows = Vec::new();
    for i in 0..500 {
        let field = "x".repeat(i % 55);
        data.extend_from_slice(format!("{field},y\n\n\n").as_bytes());
        want.push(vec![field, "y".to_string()]);
    }
    for chunk_size in [7, 100, 1 << 20] {
        let mut config = dfa();
        config.chunk_size = chunk_size;
        assert_eq!(small_ring(config, &data).unwrap(), want, "{chunk_size}");
    }
}

#[test]
fn blank_lines_and_comments_need_no_room() {
    let mut data = b"a,b\n".to_vec();
    data.extend_from_slice(&[b'\n'; 300]);
    data.extend_from_slice(b"#");
    data.extend_from_slice(&[b'x'; 300]);
    data.extend_from_slice(b"\n");
    data.extend_from_slice("z".repeat(58).as_bytes());
    let mut config = dfa();
    config.comment = Some(b'#');
    for chunk_size in [5, 64, 1 << 20] {
        config.chunk_size = chunk_size;
        let got = small_ring(config, &data).unwrap();
        assert_eq!(got, vec![vec!["a".to_string(), "b".to_string()], vec!["z".repeat(58)]]);
    }
}

#[test]
fn a_field_longer_than_the_limit_is_refused() {
    for len in [65, 100, 1000] {
        let data = format!("a,b\n{},c\n", "x".repeat(len));
        for chunk_size in [5, 1 << 20] {
            let mut config = dfa();
            config.chunk_size = chunk_size;
            assert!(matches!(small_ring(config, data.as_bytes()), Err(Error::IO(_))));
        }
    }
}

#[test]
fn a_record_of_many_short_fields_is_refused_as_well() {
    let data = format!("a,b\n{}\n", vec!["xy"; 40].join(","));
    assert!(matches!(small_ring(dfa(), data.as_bytes()), Err(Error::IO(_))));
    let data = format!("a,b\n{}\n", vec!["xy"; 19].join(","));
    assert_eq!(small_ring(dfa(), data.as_bytes()).unwrap()[1].len(), 19);
}

#[test]
fn a_wide_record_that_only_a_wrong_guess_sees_does_no_harm() {
    // Inside quotes or not, the second chunk starts with a run of bytes that looks like
    // one long record under the wrong guess only.
    let mut data = Vec::new();
    for _ in 0..40 {
        data.extend_from_slice(b"\"a\nb\",\"c\nd\"\n");
    }
    for chunk_size in 1..40 {
        let mut config = dfa();
        config.chunk_size = chunk_size;
        let got = small_ring(config, &data).unwrap();
        assert_eq!(got, vec![vec!["a\nb".to_string(), "c\nd".to_string()]; 40]);
    }
}

#[test]
fn the_bitmask_parser_reads_through_a_bounded_ring() {
    let mut data = Vec::new();
    let mut want: Rows = Vec::new();
    for i in 0..2000 {
        data.extend_from_slice(format!("{i},\"{}\"\n", "q".repeat(i % 90)).as_bytes());
        want.push(vec![i.to_string(), "q".repeat(i % 90)]);
    }
    let mut config = Config::default();
    config.has_headers = false;
    config.parser_backend = ParserBackend::Simd;
    config.field_count = Some(2);
    config.chunk_size = 5000;
    config.io_backend =
        IoBackend::RingBuf(RingBufSettings::default().buffer_size(64).buffer_limit(Some(256)));
    let got = Scheduler::with_host(config, fine_grained()).run::<Rows, str, _, _, _, _, _>(
        &BytesFile::new(&data),
        Vec::new,
        rows,
        concat,
    );
    assert_eq!(got.unwrap(), want);
}

/// Parse a slice, and a stream of the same bytes, with a total buffer limit.
fn limited(data: &[u8], limit: usize) -> [csveee::Result<Rows>; 2] {
    let mut config = dfa();
    config.has_headers = false;
    config.io_buffer_limit = Some(limit);
    let scheduler = Scheduler::with_host(config, fine_grained());
    [
        scheduler.run_slice::<Rows, str, _, _, _, _>(data, Vec::new, rows, concat),
        scheduler.run_stream::<Rows, str, _, _, _, _, _>(
            SliceSource::new(data, 0),
            Vec::new,
            rows,
            concat,
        ),
    ]
}

#[test]
fn slices_and_streams_keep_to_the_limit() {
    let mut data = Vec::new();
    for i in 0..20000 {
        data.extend_from_slice(format!("{i},b\n").as_bytes());
    }
    for got in limited(&data, 20000) {
        assert_eq!(got.unwrap().len(), 20000);
    }
    data.extend_from_slice("x".repeat(20001).as_bytes());
    for got in limited(&data, 20000) {
        assert!(matches!(got, Err(Error::IO(_))));
    }
    for got in limited(&data, 80000) {
        assert_eq!(got.unwrap().len(), 20001);
    }
}

#[test]
fn without_room_for_a_ring_nothing_is_parsed() {
    for got in limited(b"a,b\n", 100) {
        let Err(Error::IO(e)) = got else {
            panic!("expected the ring buffer to be refused");
        };
        assert_eq!(
            e.to_string(),
            "ring buffer capacity (16384 bytes, rounded up from the requested size to a power \
             of two and at least the 1-byte allocation granularity) would exceed limit (100 bytes)",
        );
    }
}

#[test]
fn filling_succeeds_just_if_there_is_room() {
    let data = b"12345678";
    let reader = |remaining| {
        let buf = RingBuf::new(4, Some(8), 1).unwrap();
        RingBufChunkReader::new(buf, SliceSource::new(data, 0), remaining, 8, 3)
    };
    // All there is fits, and is known to be all.
    let mut known = reader(Some(8));
    known.fill(100).unwrap();
    assert_eq!(known.buffer(), data);
    // Only a read with room for more would tell.
    let mut unbounded = reader(None);
    unbounded.fill(8).unwrap();
    assert_eq!(unbounded.buffer(), data);
    let e = unbounded.fill(9).unwrap_err();
    assert_eq!(
        e.to_string(),
        "ring buffer growth (16 bytes) would exceed limit (8 bytes)",
    );
    // What is consumed makes room.
    let mut moving = reader(None);
    moving.fill(8).unwrap();
    moving.consume(3);
    moving.fill(8).unwrap();
    assert_eq!(moving.buffer(), b"45678");
}

#[test]
fn a_ring_holds_no_more_than_its_capacity() {
    let mut ring = RingBuf::new(8, Some(8), 1).unwrap();
    for round in 0..5u8 {
        ring.unused_mut()[..6].copy_from_slice(&[round; 6]);
        ring.produce(6);
        assert_eq!(ring.data(), [round; 6]);
        assert_eq!(ring.unused().len(), 2);
        ring.consume(5);
        assert_eq!(ring.unused().len(), 7);
        assert_eq!(ring.data(), [round]);
        ring.consume(1);
    }
    assert!(ring.grow().is_err());
    assert_eq!(ring.capacity(), 8);
}

#[test]
fn a_misplaced_closing_quote_is_reported_at_the_quote() {
    let strict = || {
        ParserBuilder::new()
            .flexible()
            .quote_handling(QuoteHandling::Strict)
    };
    let cases: [(&[u8], usize); 4] = [
        (b"\"a\"x,b\n", 2),
        (b"a,b\n\"c\"\"\"d\n", 8),
        (b"a\"b,c\n", 1),
        (b"\"\"x\n", 1),
    ];
    for (data, at) in cases {
        for chunk_size in [1, 2, 3, 100] {
            let parser = || strict().has_headers(false).chunk_size(chunk_size).build();
            for got in [
                parser().parse_slice(data, Vec::new, rows, concat),
                parser().parse_stream(SliceSource::new(data, 0), Vec::new, rows, concat),
            ] {
                assert!(
                    matches!(
                        got,
                        Err(Error::InvalidQuote { position: Position { byte_offset } })
                            if byte_offset == at
                    ),
                    "{:?} in chunks of {chunk_size}",
                    String::from_utf8_lossy(data),
                );
            }
        }
    }
    // The same in a header.
    let data = b"\"a\"x,b\n1,2\n";
    for chunk_size in [1, 3, 100] {
        let parser = || strict().chunk_size(chunk_size).build();
        for got in [
            parser().parse_slice(data, Vec::new, rows, concat),
            parser().parse_stream(SliceSource::new(data, 0), Vec::new, rows, concat),
        ] {
            assert!(matches!(
                got,
                Err(Error::InvalidQuote {
                    position: Position { byte_offset: 2 }
                })
            ));
        }
    }
}

#[test]
fn a_slot_shows_what_it_holds() {
    let mut slot = WriteOnceSlot::new();
    assert_eq!(slot.get(), None);
    slot.set(5);
    assert_eq!(slot.get(), Some(&5));
}
