use csveee::config::Config;
use csveee::error::UserError;
use csveee::parser::driver::{ChunkStepper, StepCtx, StepResult};
use csveee::parser::fold::Fold;
use csveee::parser::simd::bitmask::VECTOR_BYTES;
use csveee::parser::simd::index_stepper::SimdIndexStepper;
use csveee::RecordTerminator;

fn lf_config(columns: usize) -> Config {
    let mut c = Config::default();
    c.terminator = RecordTerminator::lf();
    c.field_count = Some(columns);
    c
}

/// Run one `step` over `buf[..scan_end]`, returning `resume_at`.
fn step_to(
    stepper: &mut SimdIndexStepper,
    buf: &mut [u8],
    at: usize,
    scan_end: usize,
) -> usize {
    let len = buf.len();
    let ignore = |state: (), _fields: &[&[u8]]| -> Result<(), UserError> { Ok(state) };
    let mut fold = Fold::<(), [u8], _>::new(&ignore, ());
    let ctx = StepCtx::new(at, scan_end, len, 0);
    match <SimdIndexStepper as ChunkStepper<[u8]>>::step(stepper, buf, ctx, &mut fold) {
        StepResult::Suspended { resume_at, .. } => resume_at,
        _ => panic!("expected Suspended"),
    }
}

/// `Prologue::TooShort` is only worth retrying while the vector loop
/// scans nothing; once it runs, `cursor` never returns to 0.
#[test]
fn prologue_retries_only_while_the_vector_loop_stays_idle() {
    let config = lf_config(2);
    let input = b"aa,bb\n".repeat(64);

    for misalign in 1..VECTOR_BYTES {
        let mut backing = vec![0u8; input.len() + 2 * VECTOR_BYTES];
        let head = (VECTOR_BYTES - backing.as_ptr() as usize % VECTOR_BYTES) % VECTOR_BYTES;
        let base = head + misalign;
        let ptr = backing.as_ptr() as usize + base;
        backing[base..base + input.len()].copy_from_slice(&input);
        let buf = &mut backing[base..base + input.len()];
        assert_eq!(ptr % VECTOR_BYTES, misalign);

        // Under a vector: nothing scanned, so the prologue stays live
        // and the retry lands every later load on 64 bytes.
        let mut stepper = SimdIndexStepper::new(&config);
        let resume = step_to(&mut stepper, buf, 0, VECTOR_BYTES - 1);
        assert_eq!(resume, 0);
        assert!(stepper.needs_align_prologue(), "misalign={misalign}");
        let resume = step_to(&mut stepper, buf, resume, input.len());
        assert!(!stepper.needs_align_prologue());
        assert_eq!((ptr + resume) % VECTOR_BYTES, 0, "misalign={misalign}");

        // A whole vector, but still short of `skip + 64`: the loop
        // scans it unaligned, so the prologue is given up on.
        let mut stepper = SimdIndexStepper::new(&config);
        step_to(&mut stepper, buf, 0, VECTOR_BYTES);
        assert!(!stepper.needs_align_prologue(), "misalign={misalign}");
    }
}
