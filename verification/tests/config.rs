use csveee::config::Config;
use csveee::{IoBackend, RecordTerminator, RingBufSettings};

#[test]
fn default_config_validates() {
    Config::default().validate().unwrap();
}

#[test]
fn allows_zero_concurrency_as_auto() {
    let mut c = Config::default();
    c.concurrency = 0;
    c.validate().unwrap();
}

#[test]
fn allows_zero_chunk_size_as_auto() {
    let mut c = Config::default();
    c.chunk_size = 0;
    c.io_buffer_limit = Some(64 * 1024);
    // Sentinel chunk_size bypasses the chunk_size >= io_buffer_limit check.
    c.validate().unwrap();
}

#[test]
fn rejects_delimiter_equals_quote() {
    let mut c = Config::default();
    c.delimiter = b'"';
    assert!(c.validate().is_err());
}

#[test]
fn allows_quote_equals_escape() {
    let mut c = Config::default();
    c.quote = Some(b'"');
    c.escape = Some(b'"');
    c.validate().unwrap();
}

#[test]
fn rejects_delimiter_cr_with_crlf() {
    let mut c = Config::default();
    c.delimiter = b'\r';
    c.terminator = RecordTerminator::CRLF;
    assert!(c.validate().is_err());
}

#[test]
fn ascii_check_accepts_default_and_crlf() {
    Config::default().validate_ascii_control_bytes().unwrap();
    let mut c = Config::default();
    c.terminator = RecordTerminator::CRLF;
    c.validate_ascii_control_bytes().unwrap();
}

#[test]
fn ascii_check_rejects_each_non_ascii_control_byte() {
    // 0xA6 is a lead byte, 0x80 a continuation byte — both would
    // slice a multi-byte sequence apart if used as a control byte.
    for setter in [
        (|c: &mut Config| c.delimiter = 0xA6) as fn(&mut Config),
        |c| c.terminator = RecordTerminator::Byte(0x80),
        |c| c.quote = Some(0xA6),
        |c| c.escape = Some(0x80),
        |c| c.comment = Some(0xA6),
    ] {
        // Non-ASCII bytes can't collide with the ASCII defaults, so
        // each config stays dialect-valid and isolates the ASCII check.
        let mut c = Config::default();
        setter(&mut c);
        assert!(
            c.validate_ascii_control_bytes().is_err(),
            "expected non-ASCII control byte to be rejected: {c:?}"
        );
        // `validate` is dialect-only and must stay indifferent to it.
        c.validate().unwrap();
    }
}

#[test]
fn allows_chunk_smaller_than_buffer_limit() {
    let mut c = Config::default();
    c.chunk_size = 100;
    c.io_backend = IoBackend::RingBuf(RingBufSettings::default().buffer_size(50));
    c.io_buffer_limit = Some(200);
    c.validate().unwrap();
}

#[test]
fn rejects_buffer_size_greater_than_the_parser_limit() {
    let mut c = Config::default();
    c.io_backend = IoBackend::RingBuf(RingBufSettings::default().buffer_size(64 * 1024));
    c.io_buffer_limit = Some(32 * 1024);
    assert!(c.validate().is_err());
}

#[test]
fn rejects_buffer_size_greater_than_its_own_limit() {
    let mut c = Config::default();
    c.io_backend = IoBackend::RingBuf(
        RingBufSettings::default()
            .buffer_size(64 * 1024)
            .buffer_limit(Some(32 * 1024)),
    );
    assert!(c.validate().is_err());
}

#[test]
fn rejects_zero_buffer_size() {
    let mut c = Config::default();
    c.io_backend = IoBackend::RingBuf(RingBufSettings::default().buffer_size(0));
    assert!(c.validate().is_err());
}

#[test]
fn ring_buffer_checks_only_apply_when_the_backend_is_named() {
    // The payload is the point: settings that cannot be set for a
    // backend cannot be wrong for it either. A tiny limit is fine
    // under mmap, which has no buffer to size.
    let mut c = Config::default();
    c.io_backend = IoBackend::Mmap;
    c.io_buffer_limit = Some(1);
    c.validate().unwrap();
}
