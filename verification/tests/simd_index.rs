use csveee::error::UserError;
use csveee::parser::fold::Fold;
use csveee::parser::simd::index::{assemble_records_fixed, extend_offsets};

// ── extend_offsets ───────────────────────────────────────────

#[test]
fn extend_offsets_empty_mask_pushes_nothing() {
    let mut out = vec![];
    extend_offsets(&mut out, 0, 100);
    assert!(out.is_empty());
}

#[test]
fn extend_offsets_extracts_in_ascending_order() {
    let mut out = vec![];
    // Bits at 0, 5, 17, 63.
    let mask = 1u64 | (1 << 5) | (1 << 17) | (1 << 63);
    extend_offsets(&mut out, mask, 0);
    assert_eq!(out, vec![0, 5, 17, 63]);
}

#[test]
fn extend_offsets_applies_base() {
    let mut out = vec![];
    extend_offsets(&mut out, 0b1011, 1000);
    assert_eq!(out, vec![1000, 1001, 1003]);
}

#[test]
fn extend_offsets_appends() {
    let mut out = vec![42];
    extend_offsets(&mut out, 0b10, 0);
    assert_eq!(out, vec![42, 1]);
}

#[test]
fn extend_offsets_full_mask() {
    let mut out = vec![];
    extend_offsets(&mut out, !0u64, 0);
    assert_eq!(out.len(), 64);
    for (i, &v) in out.iter().enumerate() {
        assert_eq!(v, i);
    }
}

// ── helpers ──────────────────────────────────────────────────

/// Drive the fixed-arity path (`n` fields × `num_records`).
fn collect_fixed(
    buf: &mut [u8],
    n: usize,
    b_offs: &[usize],
    e_offs: &[usize],
    r_offs: &[usize],
    num_records: usize,
) -> Vec<Vec<Vec<u8>>> {
    let push = |state: Vec<Vec<Vec<u8>>>,
                fields: &[&[u8]]|
     -> Result<Vec<Vec<Vec<u8>>>, UserError> {
        let mut state = state;
        state.push(fields.iter().map(|f| f.to_vec()).collect());
        Ok(state)
    };
    let mut fold = Fold::<Vec<Vec<Vec<u8>>>, [u8], _>::new(&push, Vec::new());
    assemble_records_fixed(buf, n, b_offs, e_offs, r_offs, num_records, &mut fold).unwrap();
    fold.into_state()
}

// ── assemble_records_fixed (fast path) ───────────────────────

#[test]
fn fixed_strides_records_by_n() {
    // "aa,bb\ncc,dd\n", N=2, 2 records.
    let mut buf = b"aa,bb\ncc,dd\n".to_vec();
    let recs = collect_fixed(&mut buf, 2, &[0, 3, 6, 9], &[2, 5, 8, 11], &[], 2);
    assert_eq!(
        recs,
        vec![
            vec![b"aa".to_vec(), b"bb".to_vec()],
            vec![b"cc".to_vec(), b"dd".to_vec()],
        ]
    );
}

#[test]
fn fixed_applies_inline_removals() {
    // `"a""b",c\n`: field 0 spans [1, 5) with R={2} dropping one inner
    // quote → `a"b`; field 1 is `c` at [7, 8).
    let mut buf = b"\"a\"\"b\",c\n".to_vec();
    let recs = collect_fixed(&mut buf, 2, &[1, 7], &[5, 8], &[2], 1);
    assert_eq!(recs.len(), 1);
    assert_eq!(&recs[0][0][..], b"a\"b");
    assert_eq!(&recs[0][1][..], b"c");
}
