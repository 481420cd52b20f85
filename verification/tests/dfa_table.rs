use csveee::config::Config;
use csveee::parser::dfa::needles::StructuralNeedles;
use csveee::parser::dfa::table::{Dfa, State, Transition, ERROR_STATE};
use csveee::QuoteHandling;

fn default_dfa() -> Dfa {
    Dfa::new(&Config::default())
}

fn literal_dfa() -> Dfa {
    let mut config = Config::default();
    config.quote_handling = QuoteHandling::Literal;
    Dfa::new(&config)
}

fn strict_dfa() -> Dfa {
    let mut config = Config::default();
    config.quote_handling = QuoteHandling::Strict;
    Dfa::new(&config)
}

/// Short alias for building expected transitions in tests.
fn t(next: State, has_output: bool) -> Transition {
    Transition::new(next, has_output)
}

/// Same as `t`, but with the strict-probe error flag set.
fn te(next: State, has_output: bool) -> Transition {
    Transition::new(next, has_output).with_strict_error()
}

// -- RecordStart --

#[test]
fn record_start_skips_lf() {
    let d = default_dfa();
    assert_eq!(
        d.transition(State::RecordStart, b'\n'),
        t(State::RecordStart, false)
    );
}

#[test]
fn record_start_skips_cr() {
    let d = default_dfa();
    assert_eq!(
        d.transition(State::RecordStart, b'\r'),
        t(State::RecordStart, false)
    );
}

#[test]
fn record_start_expanded_to_field_start_for_regular_byte() {
    let d = default_dfa();
    // Epsilon-expanded: RecordStart + 'a' should behave like FieldStart + 'a'.
    assert_eq!(
        d.transition(State::RecordStart, b'a'),
        t(State::InField, true)
    );
}

#[test]
fn record_start_expanded_to_field_end_for_delimiter() {
    let d = default_dfa();
    assert_eq!(
        d.transition(State::RecordStart, b','),
        t(State::FieldEnd, false)
    );
}

// -- FieldStart --

#[test]
fn field_start_quote_enters_quoted_field() {
    let d = default_dfa();
    assert_eq!(
        d.transition(State::FieldStart, b'"'),
        t(State::InQuotedField, false)
    );
}

#[test]
fn field_start_delimiter_ends_empty_field() {
    let d = default_dfa();
    assert_eq!(
        d.transition(State::FieldStart, b','),
        t(State::FieldEnd, false)
    );
}

#[test]
fn field_start_lf_ends_record() {
    let d = default_dfa();
    assert_eq!(
        d.transition(State::FieldStart, b'\n'),
        t(State::RecordEnd, false)
    );
}

#[test]
fn field_start_cr_ends_record() {
    let d = default_dfa();
    assert_eq!(
        d.transition(State::FieldStart, b'\r'),
        t(State::RecordEnd, false)
    );
}

#[test]
fn field_start_regular_byte_enters_field() {
    let d = default_dfa();
    assert_eq!(
        d.transition(State::FieldStart, b'x'),
        t(State::InField, true)
    );
}

// -- InField --

#[test]
fn in_field_delimiter_ends_field() {
    let d = default_dfa();
    assert_eq!(
        d.transition(State::InField, b','),
        t(State::FieldEnd, false)
    );
}

#[test]
fn in_field_lf_ends_record() {
    let d = default_dfa();
    assert_eq!(
        d.transition(State::InField, b'\n'),
        t(State::RecordEnd, false)
    );
}

#[test]
fn in_field_regular_byte_continues() {
    let d = default_dfa();
    assert_eq!(d.transition(State::InField, b'z'), t(State::InField, true));
}

#[test]
fn in_field_quote_lenient_toggles() {
    let d = default_dfa();
    // STRICT_ERROR flag is set so the probe rejects, but parse-mode
    // semantics (toggle into the quoted field) are preserved.
    assert_eq!(
        d.transition(State::InField, b'"'),
        te(State::InQuotedField, false)
    );
}

#[test]
fn in_field_quote_literal_emits() {
    let d = literal_dfa();
    assert_eq!(d.transition(State::InField, b'"'), te(State::InField, true));
}

#[test]
fn in_field_quote_strict_errors() {
    let d = strict_dfa();
    assert_eq!(d.transition(State::InField, b'"'), t(State::Error, false));
}

// -- InQuotedField --

#[test]
fn in_quoted_field_regular_byte_emits() {
    let d = default_dfa();
    assert_eq!(
        d.transition(State::InQuotedField, b'a'),
        t(State::InQuotedField, true)
    );
}

#[test]
fn in_quoted_field_delimiter_emits() {
    let d = default_dfa();
    assert_eq!(
        d.transition(State::InQuotedField, b','),
        t(State::InQuotedField, true)
    );
}

#[test]
fn in_quoted_field_newline_emits() {
    let d = default_dfa();
    assert_eq!(
        d.transition(State::InQuotedField, b'\n'),
        t(State::InQuotedField, true)
    );
}

#[test]
fn in_quoted_field_quote_enters_after_closing() {
    let d = default_dfa();
    assert_eq!(
        d.transition(State::InQuotedField, b'"'),
        t(State::AfterClosingQuote, false)
    );
}

#[test]
fn in_quoted_field_backslash_escape() {
    let mut config = Config::default();
    config.escape = Some(b'\\');
    let d = Dfa::new(&config);
    assert_eq!(
        d.transition(State::InQuotedField, b'\\'),
        t(State::InEscapedQuote, false)
    );
}

// -- AfterClosingQuote --

#[test]
fn after_closing_quote_doubled_quote_emits() {
    let d = default_dfa();
    assert_eq!(
        d.transition(State::AfterClosingQuote, b'"'),
        t(State::InQuotedField, true)
    );
}

#[test]
fn after_closing_quote_delimiter_ends_field() {
    let d = default_dfa();
    assert_eq!(
        d.transition(State::AfterClosingQuote, b','),
        t(State::FieldEnd, false)
    );
}

#[test]
fn after_closing_quote_lf_ends_record() {
    let d = default_dfa();
    assert_eq!(
        d.transition(State::AfterClosingQuote, b'\n'),
        t(State::RecordEnd, false)
    );
}

#[test]
fn after_closing_quote_other_strict_errors() {
    let d = strict_dfa();
    assert_eq!(
        d.transition(State::AfterClosingQuote, b'x'),
        t(State::Error, false)
    );
}

#[test]
fn after_closing_quote_other_lenient_continues() {
    let d = default_dfa();
    // Permissive continuation, but tagged STRICT_ERROR so the probe
    // rejects a wrong InQuotes assumption.
    assert_eq!(
        d.transition(State::AfterClosingQuote, b'x'),
        te(State::InField, true)
    );
}

#[test]
fn strict_error_flag_only_set_on_lenient_cells() {
    let d = default_dfa();
    // STRICT_ERROR sits on the cells that would have been Error
    // under QuoteHandling::Strict.
    assert!(d.transition(State::InField, b'"').is_strict_error());
    assert!(
        d.transition(State::AfterClosingQuote, b'x')
            .is_strict_error()
    );
    // Regular cells don't carry the flag.
    assert!(!d.transition(State::InField, b'a').is_strict_error());
    assert!(!d.transition(State::FieldStart, b',').is_strict_error());
}

#[test]
fn strict_error_flag_absent_under_strict_quote_handling() {
    // Under QuoteHandling::Strict the cell is a real Error, not a
    // probe-only flag.
    let d = strict_dfa();
    let trans = d.transition(State::InField, b'"');
    assert!(!trans.is_strict_error());
    assert_eq!(trans.next_raw(), ERROR_STATE);
}

// -- InEscapedQuote --

#[test]
fn in_escaped_quote_any_byte_emits() {
    let d = default_dfa();
    assert_eq!(
        d.transition(State::InEscapedQuote, b'"'),
        t(State::InQuotedField, true)
    );
    assert_eq!(
        d.transition(State::InEscapedQuote, b'\n'),
        t(State::InQuotedField, true)
    );
    assert_eq!(
        d.transition(State::InEscapedQuote, b'x'),
        t(State::InQuotedField, true)
    );
}

// -- Structural needles --

fn needles_set(n: &StructuralNeedles) -> std::collections::HashSet<u8> {
    n.bytes[..n.count as usize].iter().copied().collect()
}

#[test]
fn in_field_needles_cover_structural_bytes() {
    let d = default_dfa();
    let set = needles_set(d.in_field_needles());
    // Default dialect (CRLF terminator, Toggle quote handling): {',', '\n', '\r', '"'}
    assert_eq!(set, b",\n\r\"".iter().copied().collect());
}

#[test]
fn in_field_needles_literal_excludes_quote() {
    let d = literal_dfa();
    let set = needles_set(d.in_field_needles());
    // Literal quote style treats `"` as content in InField.
    assert_eq!(set, b",\n\r".iter().copied().collect());
}

#[test]
fn in_quoted_needles_cover_quote_only() {
    let d = default_dfa();
    let set = needles_set(d.in_quoted_needles());
    // No escape configured → just the closing quote.
    assert_eq!(set, b"\"".iter().copied().collect());
}

#[test]
fn in_quoted_needles_with_backslash_escape() {
    let mut config = Config::default();
    config.escape = Some(b'\\');
    let d = Dfa::new(&config);
    let set = needles_set(d.in_quoted_needles());
    assert_eq!(set, b"\"\\".iter().copied().collect());
}

#[test]
fn structural_needles_find_basics() {
    let d = default_dfa();
    let hay = b"abcdefg,hij\nklm";
    let n = d.in_field_needles();
    assert_eq!(n.find(hay), Some(7)); // first structural byte is ','
    assert_eq!(n.find(&hay[8..]), Some(3)); // next is '\n' at relative 3
    assert_eq!(n.find(b"no-structural-bytes-here"), None);
}

fn naive(needles: &[u8], hay: &[u8]) -> Option<usize> {
    hay.iter().position(|b| needles.contains(b))
}

/// Differential test against a naive scan across the SWAR word
/// boundary.
#[test]
fn structural_needles_find_matches_naive_scan() {
    for count in 1..=4usize {
        let needles: Vec<u8> = (b'0'..).take(count).collect();
        let mut mask = [false; 256];
        for &b in &needles {
            mask[b as usize] = true;
        }
        let n = StructuralNeedles::from_mask(&mask);

        for len in 0..40usize {
            let clean = vec![b'x'; len];
            assert_eq!(n.find(&clean), naive(&needles, &clean), "clean len {len}");

            for at in 0..len {
                for &b in &needles {
                    let mut hay = clean.clone();
                    hay[at] = b;
                    assert_eq!(
                        n.find(&hay),
                        naive(&needles, &hay),
                        "count {count} len {len} at {at} byte {b}"
                    );
                }
            }

            // Two matches: the earlier must win.
            for a in 0..len {
                for b in a + 1..len {
                    let mut hay = clean.clone();
                    hay[a] = needles[0];
                    hay[b] = needles[count - 1];
                    assert_eq!(
                        n.find(&hay),
                        naive(&needles, &hay),
                        "count {count} len {len} pair {a},{b}"
                    );
                }
            }
        }
    }
}

// -- Multi-byte sequences --

#[test]
fn doubled_quote_in_quoted_field() {
    let d = default_dfa();
    assert_eq!(
        d.transition(State::InQuotedField, b'"'),
        t(State::AfterClosingQuote, false)
    );
    assert_eq!(
        d.transition(State::AfterClosingQuote, b'"'),
        t(State::InQuotedField, true)
    );
}

#[test]
fn empty_line_crlf_skipped() {
    let d = default_dfa();
    assert_eq!(
        d.transition(State::RecordStart, b'\r'),
        t(State::RecordStart, false)
    );
    assert_eq!(
        d.transition(State::RecordStart, b'\n'),
        t(State::RecordStart, false)
    );
}
