use csveee::io::mmap::MmapIo;
use csveee::io::ringbuf::buf::RingBuf;
use csveee::io::slice::SliceIo;
use csveee::io::{ChunkReader, IoContext};
use csveee::RingBufSettings;

/// Alignment unit of the buffers.
const GRANULARITY: usize = 4096;

#[test]
fn ringbuf_basic() {
    let mut rb = RingBuf::new(GRANULARITY, None, GRANULARITY).unwrap();
    let cap = rb.capacity();

    assert_eq!(rb.readable(), 0);
    assert_eq!(rb.writable(), cap);

    rb.unused_mut()[..5].copy_from_slice(b"hello");
    rb.produce(5);

    assert_eq!(rb.readable(), 5);
    assert_eq!(rb.data(), b"hello");

    rb.consume(5);
    assert_eq!(rb.readable(), 0);
    assert_eq!(rb.writable(), cap);
}

#[test]
fn ringbuf_wrap_around() {
    let mut rb = RingBuf::new(GRANULARITY, None, GRANULARITY).unwrap();
    let cap = rb.capacity();

    // Advance consumer/producer near the end.
    rb.unused_mut()[..cap - 2].copy_from_slice(&vec![0u8; cap - 2]);
    rb.produce(cap - 2);
    rb.consume(cap - 2);

    // Write across the wrap boundary.
    rb.unused_mut()[..5].copy_from_slice(b"abcde");
    rb.produce(5);

    // Data should appear contiguous despite wrapping.
    assert_eq!(rb.data(), b"abcde");
}

#[test]
fn ringbuf_grow() {
    let mut rb = RingBuf::new(GRANULARITY, None, GRANULARITY).unwrap();
    let old_cap = rb.capacity();

    rb.unused_mut()[..3].copy_from_slice(b"abc");
    rb.produce(3);

    rb.grow().unwrap();
    assert_eq!(rb.capacity(), old_cap * 2);
    assert_eq!(rb.readable(), 3);
    assert_eq!(&rb.data()[..3], b"abc");
}

#[test]
fn ringbuf_new_rejects_limit_below_granularity() {
    let Err(err) = RingBuf::new(50, Some(200), GRANULARITY) else {
        panic!("expected a ring buffer larger than its limit to be rejected");
    };
    assert!(
        err.to_string().contains("would exceed limit"),
        "unexpected error: {err}"
    );
}

#[test]
fn ringbuf_new_accepts_limit_at_granularity() {
    let granularity = GRANULARITY;
    let rb = RingBuf::new(1, Some(granularity), GRANULARITY).unwrap();
    assert_eq!(rb.capacity(), granularity);
}

fn io_for(bytes: &[u8]) -> SliceIo<'_> {
    let settings = RingBufSettings::default().buffer_limit(None);
    SliceIo::new(bytes, settings, GRANULARITY).unwrap()
}

#[test]
fn chunk_reader_single_chunk() {
    let mut io = io_for(b"a,b\n1,2\n3,4\n");
    let mut reader = io.chunk_reader(0, 12).unwrap();

    assert_eq!(reader.remaining_in_chunk(), 12);

    reader.fill(12).unwrap();
    assert_eq!(reader.buffer(), b"a,b\n1,2\n3,4\n");

    reader.consume(4);
    assert_eq!(reader.remaining_in_chunk(), 8);
    assert_eq!(reader.buffer(), b"1,2\n3,4\n");
}

#[test]
fn chunk_reader_epilogue() {
    let mut io = io_for(b"a,b\nc,d\ne,f\n");
    // Chunk is [0, 5), but the input is 12 bytes — reader can read past.
    let mut reader = io.chunk_reader(0, 5).unwrap();

    assert_eq!(reader.remaining_in_chunk(), 5);

    reader.fill(12).unwrap();
    assert_eq!(reader.buffer(), b"a,b\nc,d\ne,f\n");

    reader.consume(8);
    assert_eq!(reader.remaining_in_chunk(), 0);
    assert_eq!(reader.buffer(), b"e,f\n");
}

#[test]
fn chunk_reader_second_chunk() {
    let mut io = io_for(b"a,b\nc,d\ne,f\n");
    // Second chunk [4, 8) of a 12-byte input.
    let mut reader = io.chunk_reader(4, 8).unwrap();

    assert_eq!(reader.remaining_in_chunk(), 4);

    reader.fill(8).unwrap();
    assert_eq!(reader.buffer(), b"c,d\ne,f\n");
}

/// The shape `try_assumptions` produces: a pass rewrites mapped bytes in
/// place, then the next assumption reads the same chunk and must not see
/// them — including past `chunk_end`, which a pass reaches while
/// finishing a straddling record.
#[test]
fn reset_restores_what_the_previous_reader_dirtied() {
    let page = GRANULARITY;
    let len = page * 4;
    let content = vec![b'A'; len];

    let mut io = MmapIo::new(&content);
    {
        let mut reader = io.chunk_reader(0, page).unwrap();
        let buf = reader.buffer_mut();
        buf[0] = b'Z';
        buf[page + 10] = b'Z';
    }

    let reader = io.chunk_reader(0, page).unwrap();
    let buf = reader.buffer();
    assert_eq!(buf[0], b'A', "in-range write survived");
    assert_eq!(buf[page + 10], b'A', "past-chunk-end write survived");
}
