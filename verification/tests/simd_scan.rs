use csveee::parser::simd::bitmask::VECTOR_BYTES;
use csveee::parser::simd::scan::{Scanner, ScannerConfig, VectorOutput};

/// Default CSV semantics (`,`, `\n`, `"`) with doubled-quote escapes.
const DEFAULT: ScannerConfig = ScannerConfig {
    delim: b',',
    term: b'\n',
    term_b: None,
    quote: Some(b'"'),
    doubled_quotes: true,
};

/// Build a 64-byte input from a shorter slice, padding with `pad`.
fn pad64(prefix: &[u8], pad: u8) -> [u8; VECTOR_BYTES] {
    assert!(prefix.len() <= VECTOR_BYTES);
    let mut buf = [pad; VECTOR_BYTES];
    buf[..prefix.len()].copy_from_slice(prefix);
    buf
}

fn bits(positions: &[u32]) -> u64 {
    let mut m = 0u64;
    for &p in positions {
        assert!(p < 64);
        m |= 1u64 << p;
    }
    m
}

/// Drive the scanner over `inputs`, collecting every output
/// (including the one from `finalize`).
fn run(inputs: &[[u8; VECTOR_BYTES]]) -> Vec<VectorOutput> {
    let mut s = Scanner::new(DEFAULT);
    let mut out = Vec::new();
    for v in inputs {
        if let Some(o) = s.step(v) {
            out.push(o);
        }
    }
    if let Some(o) = s.finalize() {
        out.push(o);
    }
    out
}

// ── Single-vector behaviour ──────────────────────────────────

#[test]
fn first_step_emits_nothing() {
    let mut s = Scanner::new(DEFAULT);
    let v = pad64(b"a,b,c\n", b'.');
    assert!(s.step(&v).is_none());
}

#[test]
fn finalize_after_one_step_emits_one_output() {
    let v = pad64(b"a,b,c\n", b'.');
    let outs = run(&[v]);
    assert_eq!(outs.len(), 1);
    let o = outs[0];
    // No quotes, no removals.
    assert_eq!(o.r, 0);
    // Delimiters at bytes 1, 3; terminator at byte 5.
    assert_eq!(o.d_struct, bits(&[1, 3, 5]));
    // E sits on the structural delim/term positions.
    assert_eq!(o.e, bits(&[1, 3, 5]));
    // B sits one past each delim/term; B[0] is the prologue's.
    assert_eq!(o.b, bits(&[2, 4, 6]));
}

#[test]
fn design_example_full_pipeline() {
    // Running example: `Tom,"5'11"", Chicago",28\nAmy`.
    let raw = b"Tom,\"5'11\"\", Chicago\",28\nAmy";
    let outs = run(&[pad64(raw, b'.')]);
    assert_eq!(outs.len(), 1);
    let o = outs[0];
    // Excluding chunk-start B[0] (prologue's job), B = {5, 22, 25}.
    assert_eq!(o.b, bits(&[5, 22, 25]));
    assert_eq!(o.e, bits(&[3, 20, 24]));
    assert_eq!(o.r, bits(&[10]));
}

// ── Cross-vector behaviour ───────────────────────────────────

#[test]
fn delim_at_byte_63_carries_b_to_next_vector() {
    // A comma at V1's byte 63 must promote V2's B[0] via `BeginsCarry`.
    let mut v1 = [b'.'; VECTOR_BYTES];
    v1[63] = b',';
    let v2 = pad64(b"x,y\n", b'.');

    let outs = run(&[v1, v2]);
    assert_eq!(outs.len(), 2);
    // Nothing inside V1's 64 bytes; V2's B[0] is set by the carry.
    assert_eq!(outs[0].b, 0);
    assert_eq!(outs[1].b & 1, 1, "V2 B[0] must be set");
}

#[test]
fn closing_quote_at_byte_63_pulls_e_back() {
    // V1 quotes bytes 0..=63; V2's leading comma sets V1's E[63].
    let mut v1 = [b'a'; VECTOR_BYTES];
    v1[0] = b'"';
    v1[63] = b'"';
    let mut v2 = [b'.'; VECTOR_BYTES];
    v2[0] = b',';
    v2[1] = b'\n';

    let outs = run(&[v1, v2]);
    assert_eq!(outs.len(), 2);
    // V1's D_struct is 0, but V2's comma follows the quote at 63.
    assert_ne!(
        outs[0].e & (1u64 << 63),
        0,
        "V1 E[63] must be set via lookahead",
    );
    // Without the qe-msb carry V2's comma would re-report that boundary.
    assert_eq!(
        outs[1].e & 1u64,
        0,
        "V2 E[0] must be cleared by V1's qe[63] carry",
    );
}

#[test]
fn quote_run_spans_vector_boundary() {
    // A quoted field spanning both vectors: M-carry plus the E pullback.
    let mut v1 = [b'a'; VECTOR_BYTES];
    v1[0] = b'"';
    let mut v2 = [b'.'; VECTOR_BYTES];
    v2[0] = b'"';
    v2[1] = b',';
    v2[2] = b'b';
    v2[3] = b'\n';

    let outs = run(&[v1, v2]);
    assert_eq!(outs.len(), 2);
    // V1 is all in-quotes: no boundary, its opener the only removal.
    assert_eq!(outs[0].e, 0, "V1 must hold no field end");
    assert_eq!(outs[0].r, 1, "V1's opening quote is removed");
    // V2's E pulls back to the closer at 0, plus the terminator at 3.
    assert_eq!(outs[1].e, bits(&[0, 3]));
    // That closing quote sits at a field end, so it is not in R.
    assert_eq!(outs[1].r, 0);
}

#[test]
fn empty_scanner_finalize_emits_nothing() {
    let mut s = Scanner::new(DEFAULT);
    assert!(s.finalize().is_none());
}

#[test]
fn single_vector_with_no_quote_config() {
    let cfg = ScannerConfig {
        delim: b',',
        term: b'\n',
        term_b: None,
        quote: None,
        doubled_quotes: false,
    };
    let mut s = Scanner::new(cfg);
    let v = pad64(b"a,\"b\",c\n", b'.');
    assert!(s.step(&v).is_none());
    let o = s.finalize().unwrap();
    // Without quote config the `"` bytes are content, so no removals.
    assert_eq!(o.r, 0);
    // Delims at 1, 5; terminator at 7.
    assert_eq!(o.d_struct, bits(&[1, 5, 7]));
}

#[test]
fn multi_record_across_three_vectors() {
    // Three records across two boundaries: nothing dropped or doubled.
    let v1 = pad64(b"aa,bb,cc\ndd,ee,ff\n", b'.');
    let v2 = pad64(b"gg,hh,ii\n", b'.');
    let v3 = pad64(b"jj,kk,ll\n", b'.');
    let outs = run(&[v1, v2, v3]);
    assert_eq!(outs.len(), 3);
}
