use std::cell::Cell;

use csveee::config::Config;
use csveee::error::UserError;
use csveee::io::memory::reader::InMemoryChunkReader;
use csveee::io::ringbuf::buf::next_power_of_two;
use csveee::io::slice::SliceSource;
use csveee::parser::chunk::{Assumption, ChunkParser, FindRecordStart};
use csveee::parser::dfa::DfaChunkParser;
use csveee::parser::simd::bitmask::{prologue_at, Prologue};
use csveee::parser::simd::bitops::{count_ones, pdep, pext};
use csveee::parser::simd::{handoff, SimdChunkParser};
use csveee::scheduler::dispatch::Scheduler;
use csveee::scheduler::resolve::{
    affordable_thread_count, per_thread_share, resolve_buffer_limit, resolve_chunk_size,
    resolve_thread_count,
};
use csveee::scheduler::slot::WriteOnceSlot;
use csveee::sys::{total_ram, Host};
use csveee::{Error, ParserBackend, Position, QuoteHandling};

type Rows = Vec<Vec<String>>;

fn rows(state: Rows, fields: &[&str]) -> Result<Rows, UserError> {
    let mut state = state;
    state.push(fields.iter().map(|f| f.to_string()).collect());
    Ok(state)
}

fn concat(states: Vec<Rows>) -> Rows {
    states.concat()
}

fn parse(config: Config, data: &[u8]) -> csveee::Result<Rows> {
    Scheduler::new(config).run_slice::<Rows, str, _, _, _, _>(data, Vec::new, rows, concat)
}

fn no_headers() -> Config {
    let mut config = Config::default();
    config.has_headers = false;
    config
}

/// Records as they are written with every field in quotes.
fn written(records: &[Vec<&str>]) -> String {
    let mut text = String::new();
    for record in records {
        let fields: Vec<String> = record
            .iter()
            .map(|f| format!("\"{}\"", f.replace('"', "\"\"")))
            .collect();
        text.push_str(&fields.join(","));
        text.push('\n');
    }
    text
}

#[test]
fn written_records_are_read_back() {
    let records = vec![
        vec!["plain", "with \"quotes\"", ""],
        vec!["a,b", "line\r\nbreak", "\""],
        vec!["\"\"", " padded ", "é"],
    ];
    let text = written(&records);
    for backend in [ParserBackend::Dfa, ParserBackend::Simd] {
        for chunk_size in [1, 7, 1000] {
            let mut config = no_headers();
            config.field_count = Some(3);
            config.parser_backend = backend;
            config.chunk_size = chunk_size;
            assert_eq!(
                parse(config, text.as_bytes()).unwrap(),
                records,
                "{backend:?} chunk_size={chunk_size}"
            );
        }
    }
}

#[test]
fn every_record_has_the_arity_asked_for() {
    let mut config = no_headers();
    config.field_count = Some(2);
    config.parser_backend = ParserBackend::Dfa;
    let got = parse(config, b"a,b\nc,d\n").unwrap();
    assert!(got.iter().all(|r| r.len() == 2));
    match parse(config, b"a,b\nc\n").unwrap_err() {
        Error::NumberOfFields {
            expected: 2,
            found: 1,
            position: Position { byte_offset: 4 },
        } => {}
        e => panic!("unexpected {e:?}"),
    }
}

#[test]
fn trimmed_fields_have_no_space_around_them() {
    let mut config = no_headers();
    config.trim = true;
    config.terminator = csveee::RecordTerminator::Byte(b'|');
    let got = parse(config, b" \t\n\x0b\x0c\r a b \x0b,  |").unwrap();
    assert_eq!(got, vec![vec!["a b", ""]]);
}

#[test]
fn blank_lines_change_nothing() {
    let plain = parse(no_headers(), b"a,b\nc,d\n").unwrap();
    let blank = parse(no_headers(), b"\n\r\n\na,b\n\n\nc,d\n\n").unwrap();
    assert_eq!(plain, blank);
}

#[test]
fn comment_lines_change_nothing() {
    let mut config = no_headers();
    config.comment = Some(b'#');
    let plain = parse(config, b"a,b\nc,d\n").unwrap();
    let commented = parse(config, b"#x,\"y\na,b\n#\nc,d\n").unwrap();
    assert_eq!(plain, commented);
}

#[test]
fn the_header_is_the_first_record() {
    let data = b"\nh1,\"h\n2\"\na,b\nc,d\n";
    let all = parse(no_headers(), data).unwrap();
    let body = parse(Config::default(), data).unwrap();
    assert_eq!(all[0], vec!["h1", "h\n2"]);
    assert_eq!(all[1..], body[..]);
}

/// Parse one chunk with either parser.
fn pass(simd: bool, config: Config, data: &[u8], chunk_end: usize) -> (csveee::Result<Rows>, Option<usize>) {
    let mut reader = InMemoryChunkReader::new(data.to_vec(), chunk_end);
    let r = if simd {
        SimdChunkParser::new(config).parse::<Rows, str, _, _>(
            &mut reader,
            Vec::new(),
            Assumption::OutOfQuotes,
            &rows,
            FindRecordStart::No,
        )
    } else {
        DfaChunkParser::new(config).parse::<Rows, str, _, _>(
            &mut reader,
            Vec::new(),
            Assumption::OutOfQuotes,
            &rows,
            FindRecordStart::No,
        )
    };
    (r.result, r.record_end)
}

#[test]
fn the_parsers_agree_on_records_and_ends() {
    let mut data = Vec::new();
    for i in 0..50 {
        data.extend_from_slice(format!("\"a{i}\"\"\",b\n\nc,\"d\n{i}\"\r\n").as_bytes());
    }
    let mut config = no_headers();
    config.field_count = Some(2);
    for chunk_end in 0..data.len() {
        let (one, one_end) = pass(false, config, &data, chunk_end);
        let (other, other_end) = pass(true, config, &data, chunk_end);
        assert_eq!(one.unwrap(), other.unwrap(), "chunk_end={chunk_end}");
        assert_eq!(one_end, other_end, "chunk_end={chunk_end}");
    }
}

#[test]
fn both_parsers_report_the_first_failure() {
    let mut config = no_headers();
    config.field_count = Some(2);
    let (dfa, _) = pass(false, config, b"a,b\nc,d,e\nf,g\n", 100);
    let (simd, _) = pass(true, config, b"a,b\nc,d,e\nf,g\n", 100);
    assert_eq!(dfa.unwrap_err().message(), simd.unwrap_err().message());
    let (dfa, _) = pass(false, config, b"a,b\nc,\"d\n", 100);
    let (simd, _) = pass(true, config, b"a,b\nc,\"d\n", 100);
    assert_eq!(dfa.unwrap_err().message(), simd.unwrap_err().message());
}

#[test]
fn chunks_merge_to_what_one_pass_gives() {
    let mut data = Vec::new();
    for i in 0..40 {
        data.extend_from_slice(format!("x{i},\"y\n,{i}\"\"\",z\n").as_bytes());
    }
    for handling in [
        QuoteHandling::Toggle,
        QuoteHandling::Literal,
        QuoteHandling::Strict,
    ] {
        let mut config = no_headers();
        config.quote_handling = handling;
        let whole = parse(config, &data).unwrap();
        assert_eq!(whole.len(), 40);
        for chunk_size in 1..80 {
            config.chunk_size = chunk_size;
            assert_eq!(parse(config, &data).unwrap(), whole, "chunk_size={chunk_size}");
        }
    }
}

#[test]
fn offsets_add_up() {
    let at = |byte_offset| Error::InvalidQuote {
        position: Position { byte_offset },
    };
    let twice = at(5).with_base(7).with_base(8);
    assert_eq!(twice.position(), Some(&Position { byte_offset: 20 }));
    let far = at(usize::MAX).with_base(1);
    assert_eq!(
        far.position(),
        Some(&Position {
            byte_offset: usize::MAX
        })
    );
}

#[test]
fn extracting_undoes_depositing() {
    let mask = 0b1011_0000_1110_0001u64 | 1 << 63;
    for src in [0u64, 1, 0b10_1101, 0x1ff] {
        assert_eq!(pext(pdep(src, mask), mask), src & ((1 << count_ones(mask)) - 1));
    }
    assert_eq!(pdep(0b101, 0b1011_0000), 0b1001_0000);
    assert_eq!(pext(0b1001_0000, 0b1011_0000), 0b101);
}

#[test]
fn shares_stay_within_the_total() {
    for threads in 1..20usize {
        let share = per_thread_share(Some(1000), threads).unwrap();
        assert!(share * threads <= 1000);
    }
    assert_eq!(per_thread_share(Some(1000), 7), Some(142));
    assert_eq!(per_thread_share(Some(1000), 0), None);
}

#[test]
fn an_own_limit_only_tightens() {
    for own in [None, Some(0), Some(10), Some(100)] {
        for share in [None, Some(50)] {
            let limit = resolve_buffer_limit(own, share);
            if let Some(s) = share {
                assert!(limit.unwrap() <= s);
            }
            if let Some(o) = own {
                if o != 0 {
                    assert!(limit.unwrap() <= o);
                }
            }
        }
    }
}

#[test]
fn threads_are_bounded_by_every_term() {
    let host = Host {
        allocation_granularity: 4096,
        available_parallelism: 1000,
        total_ram: None,
    };
    let config = Config::default();
    // six times the square root of 99, rounded up: 60
    assert_eq!(resolve_thread_count(&config, &host, 99, None), 60);
    assert_eq!(resolve_thread_count(&config, &host, 4, None), 4);
    assert_eq!(resolve_thread_count(&config, &host, 0, None), 0);
    assert_eq!(affordable_thread_count(Some(3 * 4096 + 1), &host), 3);
    assert_eq!(affordable_thread_count(Some(1), &host), 1);
    assert_eq!(affordable_thread_count(None, &host), usize::MAX);
}

#[test]
fn chunk_sizes_follow_the_parser() {
    let mut config = Config::default();
    assert_eq!(resolve_chunk_size(&config, ParserBackend::Dfa), 262144);
    assert_eq!(resolve_chunk_size(&config, ParserBackend::Simd), 1048576);
    config.chunk_size = 5;
    assert_eq!(resolve_chunk_size(&config, ParserBackend::Simd), 5);
}

#[test]
fn the_handoff_is_at_or_past_the_boundary() {
    assert_eq!(handoff(3, 10, false), 3);
    assert_eq!(handoff(3, 10, true), 10);
    assert_eq!(handoff(12, 10, true), 12);
}

#[test]
fn powers_of_two_round_up() {
    assert_eq!(next_power_of_two(0), Some(1));
    assert_eq!(next_power_of_two(5), Some(8));
    assert_eq!(next_power_of_two(64), Some(64));
    assert_eq!(next_power_of_two(usize::MAX), None);
}

#[test]
fn memory_is_pages_times_their_size() {
    assert_eq!(total_ram(3, 4096), Some(12288));
    assert_eq!(total_ram(0, 4096), None);
    assert_eq!(total_ram(-1, 4096), None);
    assert_eq!(total_ram(i64::MAX, usize::MAX), Some(usize::MAX));
}

#[test]
fn a_slot_keeps_what_is_put_into_it() {
    let empty: WriteOnceSlot<u8> = WriteOnceSlot::new();
    assert_eq!(empty.into_inner(), None);
    let mut slot = WriteOnceSlot::new();
    slot.set(7u8);
    assert_eq!(slot.into_inner(), Some(7));
}

#[test]
fn one_chunk_and_a_stream_see_every_record_once() {
    let data = b"a,\"b\nc\"\nd,e\nf,g\n";
    let seen = Cell::new(0usize);
    let count = |state: usize, _fields: &[&str]| -> Result<usize, UserError> {
        seen.set(seen.get() + 1);
        Ok(state + 1)
    };
    let sum = |states: Vec<usize>| states.iter().sum::<usize>();
    let scheduler = Scheduler::new(no_headers());
    let total = scheduler
        .run_slice::<usize, str, _, _, _, _>(data, || 0, &count, sum)
        .unwrap();
    assert_eq!((total, seen.get()), (3, 3));
    seen.set(0);
    let total = scheduler
        .run_stream::<usize, str, _, _, _, _, _>(SliceSource::new(data, 0), || 0, &count, sum)
        .unwrap();
    assert_eq!((total, seen.get()), (3, 3));
}

#[test]
fn a_stream_and_chunks_fold_the_same_records() {
    let data = b"h,i\n\"a\n\",b\n\nc,\"d\"\"\"\ne,f";
    let stream = Scheduler::new(Config::default())
        .run_stream::<Rows, str, _, _, _, _, _>(SliceSource::new(data, 0), Vec::new, rows, concat)
        .unwrap();
    for chunk_size in [4, 5, 9, 100] {
        let mut config = Config::default();
        config.chunk_size = chunk_size;
        assert_eq!(parse(config, data).unwrap(), stream, "chunk_size={chunk_size}");
    }
    assert_eq!(stream, vec![vec!["a\n", "b"], vec!["c", "d\""], vec!["e", "f"]]);
}

#[test]
fn the_prologue_follows_the_alignment() {
    let buf = [b'x'; 200];
    assert!(matches!(prologue_at(&buf, 0, 200, b'.'), Prologue::Aligned));
    assert!(matches!(prologue_at(&buf, 10, 117, b'.'), Prologue::TooShort));
    match prologue_at(&buf, 10, 118, b'.') {
        Prologue::Vector(v, 10) => {
            assert!(v[..10].iter().all(|&b| b == b'.'));
            assert!(v[10..].iter().all(|&b| b == b'x'));
        }
        _ => panic!("expected a vector"),
    }
}
