use csveee::config::Config;
use csveee::io::ChunkReader;
use csveee::parser::chunk::Assumption;
use csveee::parser::simd::findstart::find_record_start;
use csveee::RecordTerminator;

/// In-memory `ChunkReader` for tests.
struct VecReader {
    /// The whole input.
    data: Vec<u8>,
    /// Read cursor into `data`.
    pos: usize,
    /// Simulated chunk boundary, as an offset into `data`.
    chunk_end: usize,
}

impl VecReader {
    fn new(data: &[u8], chunk_end: usize) -> Self {
        Self {
            data: data.to_vec(),
            pos: 0,
            chunk_end,
        }
    }
}

impl ChunkReader for VecReader {
    fn buffer(&self) -> &[u8] {
        &self.data[self.pos..]
    }
    fn buffer_mut(&mut self) -> &mut [u8] {
        &mut self.data[self.pos..]
    }
    fn fill(&mut self, _n: usize) -> std::io::Result<()> {
        Ok(())
    }
    fn consume(&mut self, n: usize) {
        self.pos += n;
    }
    fn remaining_in_chunk(&self) -> usize {
        self.chunk_end.saturating_sub(self.pos)
    }
}

fn lf_config() -> Config {
    let mut c = Config::default();
    c.terminator = RecordTerminator::lf();
    c
}

#[test]
fn out_of_quotes_finds_first_terminator() {
    // "field_a,field_b\nrecord2\n" — first \n at byte 15.
    let data = b"field_a,field_b\nrecord2\n";
    let mut r = VecReader::new(data, data.len());
    let start =
        find_record_start(&mut r, &lf_config(), Assumption::OutOfQuotes, false).unwrap();
    assert_eq!(start, Some(15));
}

#[test]
fn in_quotes_finds_first_terminator_after_close() {
    // `inside",field\nrec2\n`: the closer is at 6, so the first
    // out-of-quotes \n is at 13.
    let data = b"inside\",field\nrec2\n";
    let mut r = VecReader::new(data, data.len());
    let start = find_record_start(&mut r, &lf_config(), Assumption::InQuotes, false).unwrap();
    assert_eq!(start, Some(13));
}

#[test]
fn in_quotes_ignores_terminator_inside_quotes() {
    // The `\n` at byte 6 is inside the quoted field.
    let data = b"inside\nstill\",x\nrec2\n";
    let mut r = VecReader::new(data, data.len());
    let start = find_record_start(&mut r, &lf_config(), Assumption::InQuotes, false).unwrap();
    assert_eq!(start, Some(15));
}

#[test]
fn returns_none_when_no_terminator_in_chunk() {
    // No \n at all → None.
    let data = b"a,b,c";
    let mut r = VecReader::new(data, data.len());
    let start =
        find_record_start(&mut r, &lf_config(), Assumption::OutOfQuotes, false).unwrap();
    assert_eq!(start, None);
}

#[test]
fn respects_chunk_boundary() {
    // The terminator at byte 30 is past chunk_end = 20.
    let mut data = vec![b'a'; 30];
    data.push(b'\n');
    data.extend_from_slice(b"rec2\n");
    let mut r = VecReader::new(&data, 20);
    let start =
        find_record_start(&mut r, &lf_config(), Assumption::OutOfQuotes, false).unwrap();
    assert_eq!(start, None);
    // The reader must not have consumed past the chunk end.
    assert!(r.pos <= 20);
}

#[test]
fn terminator_in_second_vector() {
    // Pad with non-structural content for 70 bytes, then a \n.
    let mut data = vec![b'a'; 70];
    data.push(b'\n');
    data.extend_from_slice(b"rec\n");
    let mut r = VecReader::new(&data, data.len());
    let start =
        find_record_start(&mut r, &lf_config(), Assumption::OutOfQuotes, false).unwrap();
    assert_eq!(start, Some(70));
}

#[test]
fn terminator_at_vector_boundary() {
    // \n at exactly byte 63 (last byte of the first vector).
    let mut data = vec![b'a'; 63];
    data.push(b'\n');
    data.extend_from_slice(b"rec\n");
    let mut r = VecReader::new(&data, data.len());
    let start =
        find_record_start(&mut r, &lf_config(), Assumption::OutOfQuotes, false).unwrap();
    assert_eq!(start, Some(63));
}

#[test]
fn quoted_terminator_then_real_one() {
    // `"a\nb",x\ny`: the \n at byte 2 is quoted, the one at 7 is
    // structural.
    let data = b"\"a\nb\",x\ny";
    let mut r = VecReader::new(data, data.len());
    let start =
        find_record_start(&mut r, &lf_config(), Assumption::OutOfQuotes, false).unwrap();
    assert_eq!(start, Some(7));
}

#[test]
fn in_quotes_after_escape_treats_carry_as_out_of_quotes() {
    // Byte 0 is the second `"` of a `""` pair, so the toggle puts us
    // back inside quotes and the first out-of-quotes `\n` is at 8.
    let data = b"\"more\",x\n";
    let mut r = VecReader::new(data, data.len());
    let start = find_record_start(&mut r, &lf_config(), Assumption::InQuotesAfterEscape, false)
        .unwrap();
    assert_eq!(start, Some(8));
}

#[test]
fn empty_input_returns_none() {
    let mut r = VecReader::new(b"", 0);
    let start =
        find_record_start(&mut r, &lf_config(), Assumption::OutOfQuotes, false).unwrap();
    assert_eq!(start, None);
}

#[test]
fn semicolon_delimiter() {
    // Sanity: non-default delimiters work.
    let mut c = lf_config();
    c.delimiter = b';';
    let data = b"a;b;c\nrec2\n";
    let mut r = VecReader::new(data, data.len());
    let start = find_record_start(&mut r, &c, Assumption::OutOfQuotes, false).unwrap();
    assert_eq!(start, Some(5));
}

// ── strict probe ─────────────────────────────────────────────────

/// Config with a quote char so the strict probe is meaningful.
fn quoted_lf_config() -> Config {
    let mut c = lf_config();
    c.quote = Some(b'"');
    c
}

#[test]
fn strict_rejects_wrong_out_of_quotes_assumption() {
    // The chunk starts inside a quoted field, so under `OutOfQuotes`
    // the closer looks like an opener preceded by content (`l"`).
    let data = b"g-gu, Seoul\",37\nnext,rec\n";
    let mut r = VecReader::new(data, data.len());
    let err = find_record_start(&mut r, &quoted_lf_config(), Assumption::OutOfQuotes, true);
    assert!(
        matches!(err, Err(csveee::Error::InvalidQuote { .. })),
        "got {err:?}"
    );
}

#[test]
fn strict_accepts_correct_in_quotes_assumption() {
    // Correct assumption: the `"` is a closer followed by `,`.
    let data = b"g-gu, Seoul\",37\nnext,rec\n";
    let mut r = VecReader::new(data, data.len());
    let start =
        find_record_start(&mut r, &quoted_lf_config(), Assumption::InQuotes, true).unwrap();
    assert_eq!(start, Some(15));
}

#[test]
fn strict_accepts_well_formed_out_of_quotes() {
    // A properly-quoted middle field: opener after `,`, closer before.
    let data = b"a,\"b,c\",d\nrec2\n";
    let mut r = VecReader::new(data, data.len());
    let start =
        find_record_start(&mut r, &quoted_lf_config(), Assumption::OutOfQuotes, true).unwrap();
    assert_eq!(start, Some(9));
}

#[test]
fn strict_accepts_doubled_quote_escape() {
    // In a `""` pair each `"` is the other's legal neighbour.
    let data = b"a,\"x\"\"y\",b\nr2\n";
    let mut r = VecReader::new(data, data.len());
    let mut c = quoted_lf_config();
    c.escape = Some(b'"');
    let start = find_record_start(&mut r, &c, Assumption::OutOfQuotes, true).unwrap();
    assert_eq!(start, Some(10));
}

/// A misplaced closer is anchored on the byte that follows it, as the
/// DFA probe anchors it.
#[test]
fn strict_closer_error_anchors_on_following_byte() {
    // Under `InQuotes` the `"` at 3 closes, but `d` is no boundary.
    let data = b"abc\"def,x\n";
    let mut r = VecReader::new(data, data.len());
    let err = find_record_start(&mut r, &quoted_lf_config(), Assumption::InQuotes, true);
    assert!(
        matches!(
            err,
            Err(csveee::Error::InvalidQuote {
                position: csveee::Position { byte_offset: 4 }
            })
        ),
        "got {err:?}"
    );
}

#[test]
fn strict_opener_error_anchors_on_the_quote() {
    // Under `OutOfQuotes` the `"` at 11 opens, but `l` is no boundary.
    let data = b"g-gu, Seoul\",37\nnext,rec\n";
    let mut r = VecReader::new(data, data.len());
    let err = find_record_start(&mut r, &quoted_lf_config(), Assumption::OutOfQuotes, true);
    assert!(
        matches!(
            err,
            Err(csveee::Error::InvalidQuote {
                position: csveee::Position { byte_offset: 11 }
            })
        ),
        "got {err:?}"
    );
}

#[test]
fn strict_closer_at_bit_63_anchors_on_next_vector() {
    // The closer sits in bit 63, so its right neighbour — byte 64 of
    // the next vector — decides, and carries the offset.
    let mut data = vec![b'a'; 63];
    data.push(b'"');
    data.extend_from_slice(b"x,y\n");
    let mut r = VecReader::new(&data, data.len());
    let err = find_record_start(&mut r, &quoted_lf_config(), Assumption::InQuotes, true);
    assert!(
        matches!(
            err,
            Err(csveee::Error::InvalidQuote {
                position: csveee::Position { byte_offset: 64 }
            })
        ),
        "got {err:?}"
    );
}

#[test]
fn strict_rejects_across_vector_boundary() {
    // A contradicting quote past the first vector: the carry must see it.
    let mut data = vec![b'a'; 70];
    data.extend_from_slice(b" text\",99\nnext\n");
    let mut r = VecReader::new(&data, data.len());
    let err = find_record_start(&mut r, &quoted_lf_config(), Assumption::OutOfQuotes, true);
    assert!(
        matches!(err, Err(csveee::Error::InvalidQuote { .. })),
        "got {err:?}"
    );
}
