//! Cross-vector bitmask pipeline: vector `i`'s `E` and `R` depend on bit
//! 0 of vector `i+1`'s masks, so this lags a vector, owning that delay
//! and the forward carries.

use vstd::prelude::*;

use super::bitmask::{
    compute_chars_to_remove, compute_field_begins, compute_field_ends, compute_in_quotes,
    either, match_structural, odd_up_to, terminator_run_ends, terminator_run_starts,
    test_bit, without, BeginsCarry, StructuralMasks,
};
use super::bitops::bit;
use super::masks::{
    before_edge, begins, behind_edge, cut_at, delim_at, ends, gone, inside, inside_same,
    masks_same, opens, quote_at, run_end, run_start, shuts, stop_at, term_at,
};

verus! {

/// The slice of the parser config that the scanner cares about.
#[derive(Debug, Clone, Copy)]
pub struct ScannerConfig {
    /// Field delimiter byte.
    pub delim: u8,
    /// Primary record terminator byte.
    pub term: u8,
    /// Second terminator byte, folded into `term` (the `\r` of a CRLF).
    pub term_b: Option<u8>,
    /// Quote byte, or `None` when quoting is disabled.
    pub quote: Option<u8>,
    /// `escape == quote`: the first `"` of a `""` pair is kept as content.
    pub doubled_quotes: bool,
}

/// Per-vector output: the three indexing bitmasks `b`/`e`/`r`, plus
/// `d_struct` and `term` for the field-count verifier.
#[derive(Debug, Clone, Copy, PartialEq, Eq, Structural)]
pub struct VectorOutput {
    /// Field beginnings.
    pub b: u64,
    /// Field ends.
    pub e: u64,
    /// Chars to remove.
    pub r: u64,
    /// Out-of-quotes delimiters and terminator-run ends, for the verifier.
    pub d_struct: u64,
    /// The run-collapsed terminator subset of `d_struct`.
    pub term: u64,
}

/// The masks say what holds in `x` from offset `a` on.
pub open spec fn describes(out: VectorOutput, k: ScannerConfig, x: Seq<u8>, a: int) -> bool {
    &&& forall|j: int| 0 <= j < 64 ==> #[trigger] bit(out.b, j) == begins(k, x, a + j)
    &&& forall|j: int| 0 <= j < 64 ==> #[trigger] bit(out.e, j) == ends(k, x, a + j)
    &&& forall|j: int| 0 <= j < 64 ==> #[trigger] bit(out.r, j) == gone(k, x, a + j)
    &&& forall|j: int| 0 <= j < 64 ==> #[trigger] bit(out.d_struct, j) == behind_edge(k, x, a + j)
    &&& forall|j: int| 0 <= j < 64 ==> #[trigger] bit(out.term, j) == run_end(k, x, a + j)
}

/// Raw masks of the previous vector, awaiting the next vector's LSBs.
/// `B`, `E`, `R` and the run-collapsed `d_struct` are all computed at
/// resolve time.
#[derive(Debug, Clone, Copy)]
pub struct Pending {
    /// Raw `(C, N, Q)` masks of the held vector.
    pub structural: StructuralMasks,
    /// Its in-quotes mask.
    pub m: u64,
}

impl Pending {
    /// The masks are those of the vector of `x` at offset `a`.
    pub open spec fn holds(self, k: ScannerConfig, x: Seq<u8>, a: int) -> bool {
        &&& forall|j: int|
            0 <= j < 64 ==> #[trigger] bit(self.structural.delim, j) == delim_at(k, x, a + j)
        &&& forall|j: int|
            0 <= j < 64 ==> #[trigger] bit(self.structural.term, j) == term_at(k, x, a + j)
        &&& forall|j: int|
            0 <= j < 64 ==> #[trigger] bit(self.structural.quote, j) == quote_at(k, x, a + j)
        &&& forall|j: int| 0 <= j < 64 ==> #[trigger] bit(self.m, j) == inside(k, x, a + j + 1)
    }
}

/// The lookahead a pending vector resolves against: what the byte behind it is.
#[derive(Debug, Clone, Copy)]
pub struct Lookahead {
    /// There is one.
    pub there: bool,
    /// A delimiter outside quotes.
    pub delim_ooq: bool,
    /// A terminator outside quotes.
    pub term_ooq: bool,
    /// A quote.
    pub quote: bool,
}

/// Stateful scanner: stream 64-byte input vectors in via [`Scanner::step`];
/// stream completed [`VectorOutput`]s out, lagging by one vector. End
/// the stream with [`Scanner::finalize`] to flush the pending vector.
pub struct Scanner {
    /// Dialect bytes the per-vector masks are built from.
    config: ScannerConfig,
    /// `M`-MSB of the last vector stepped in.
    in_quotes_carry: bool,
    /// `B`-carries of the last resolved vector.
    begins_carry: BeginsCarry,
    /// `QE[63]` of the last emitted vector, so no field-end reports twice.
    ends_carry: bool,
    /// Bit 63 of the last-resolved `term` mask, so run continuations get no `E`.
    prev_term_msb: bool,
    /// The vector held back for the next call's lookahead.
    pending: Option<Pending>,
    /// The bytes stepped in.
    seen: Ghost<Seq<u8>>,
}

/// The in-quotes state inside a vector, from the one before it.
proof fn inside_vector(k: ScannerConfig, x: Seq<u8>, a: int, q: u64, j: int)
    requires
        0 <= a,
        -1 <= j < 64,
        forall|i: int| 0 <= i < 64 ==> #[trigger] bit(q, i) == quote_at(k, x, a + i),
    ensures
        inside(k, x, a + j + 1) == (inside(k, x, a) != odd_up_to(q, j)),
    decreases j + 1,
{
    if j >= 0 {
        inside_vector(k, x, a, q, j - 1);
        assert(bit(q, j) == quote_at(k, x, a + j));
    }
}

impl Scanner {
    /// The bytes stepped in so far.
    pub closed spec fn stream(self) -> Seq<u8> {
        self.seen@
    }

    /// The dialect bytes.
    pub closed spec fn chars(self) -> ScannerConfig {
        self.config
    }

    /// The carries are those of the stream, and its last vector is held back.
    pub closed spec fn wf(self) -> bool {
        let w = self.seen@;
        let a = w.len() - 64;
        let k = self.config;
        &&& w.len() % 64 == 0
        &&& self.in_quotes_carry == inside(k, w, w.len() as int)
        &&& w.len() == 0 ==> self.pending is None && !self.begins_carry.d_struct_msb
            && !self.begins_carry.qb_msb && !self.ends_carry && !self.prev_term_msb
        &&& w.len() > 0 ==> {
            &&& self.pending matches Some(p) && p.holds(k, w, a)
            &&& self.begins_carry.d_struct_msb == behind_edge(k, w, a - 1)
            &&& self.begins_carry.qb_msb == opens(k, w, a - 1)
            &&& self.ends_carry == shuts(k, w, a - 1)
            &&& self.prev_term_msb == stop_at(k, w, a - 1)
        }
    }

    /// A scanner before its first vector.
    pub fn new(config: ScannerConfig) -> (r: Self)
        ensures
            r.wf(),
            r.chars() == config,
            r.stream() == Seq::<u8>::empty(),
    {
        Self {
            config,
            in_quotes_carry: false,
            begins_carry: BeginsCarry::default(),
            ends_carry: false,
            prev_term_msb: false,
            pending: None,
            seen: Ghost(Seq::empty()),
        }
    }

    /// Consume one 64-byte vector, returning the previous vector's
    /// completed output (`None` on a fresh scanner's first call).
    pub fn step(&mut self, input: &[u8; 64]) -> (r: Option<VectorOutput>)
        requires
            old(self).wf(),
        ensures
            final(self).wf(),
            final(self).chars() == old(self).chars(),
            final(self).stream() == old(self).stream() + input@,
            r is None <==> old(self).stream().len() == 0,
            r matches Some(out) ==> describes(
                out,
                old(self).chars(),
                final(self).stream(),
                old(self).stream().len() - 64,
            ),
    {
        let cfg = self.config;
        let ghost w = self.seen@;
        let ghost x = w + input@;
        let ghost n = w.len() as int;
        let s = match_structural(input, cfg.delim, cfg.term, cfg.term_b, cfg.quote);
        let (m, in_quotes_carry_out) = compute_in_quotes(s.quote, self.in_quotes_carry);
        proof {
            inside_same(cfg, w, x, n);
            assert forall|j: int| 0 <= j < 64 implies #[trigger] bit(s.quote, j) == quote_at(
                cfg,
                x,
                n + j,
            ) by {
                assert(x[n + j] == input@[j]);
            }
            assert forall|j: int| 0 <= j < 64 implies #[trigger] bit(s.delim, j) == delim_at(
                cfg,
                x,
                n + j,
            ) by {
                assert(x[n + j] == input@[j]);
            }
            assert forall|j: int| 0 <= j < 64 implies #[trigger] bit(s.term, j) == term_at(
                cfg,
                x,
                n + j,
            ) by {
                assert(x[n + j] == input@[j]);
            }
            assert forall|j: int| 0 <= j < 64 implies #[trigger] bit(m, j) == inside(
                cfg,
                x,
                n + j + 1,
            ) by {
                inside_vector(cfg, x, n, s.quote, j);
            }
        }
        // The lookahead the pending (previous) vector needs to finalize.
        let next = Lookahead {
            there: true,
            delim_ooq: test_bit(s.delim, 0) && !test_bit(m, 0),
            term_ooq: test_bit(s.term, 0) && !test_bit(m, 0),
            quote: test_bit(s.quote, 0),
        };
        let prev_out = match self.pending {
            Some(prev) => {
                proof {
                    assert forall|i: int| 0 <= i < n implies x[i] == w[i] by {}
                    pending_extends(prev, cfg, w, x, n - 64);
                    if n > 64 {
                        masks_same(cfg, w, x, n - 65);
                    }
                }
                Some(self.resolve(&prev, &next, Ghost(x), Ghost(n - 64)))
            },
            None => None,
        };
        self.pending = Some(Pending { structural: s, m });
        self.in_quotes_carry = in_quotes_carry_out;
        self.seen = Ghost(x);
        proof {
            assert(x.len() - 64 == n);
            assert(inside(cfg, x, n + 63 + 1) == bit(m, 63));
            assert((n + 64) % 64 == 0);
        }
        prev_out
    }

    /// Finish the held vector against `next`, advancing the forward
    /// carries. Without a next byte, a structural at byte 63 terminates within
    /// the vector.
    fn resolve(
        &mut self,
        prev: &Pending,
        next: &Lookahead,
        Ghost(x): Ghost<Seq<u8>>,
        Ghost(a): Ghost<int>,
    ) -> (r: VectorOutput)
        requires
            0 <= a,
            a + 64 <= x.len(),
            prev.holds(old(self).config, x, a),
            old(self).begins_carry.d_struct_msb == behind_edge(old(self).config, x, a - 1),
            old(self).begins_carry.qb_msb == opens(old(self).config, x, a - 1),
            old(self).ends_carry == shuts(old(self).config, x, a - 1),
            old(self).prev_term_msb == stop_at(old(self).config, x, a - 1),
            next.there == (a + 64 < x.len()),
            next.delim_ooq == cut_at(old(self).config, x, a + 64),
            next.term_ooq == stop_at(old(self).config, x, a + 64),
            next.quote == quote_at(old(self).config, x, a + 64),
        ensures
            final(self).config == old(self).config,
            final(self).in_quotes_carry == old(self).in_quotes_carry,
            final(self).pending == old(self).pending,
            final(self).seen == old(self).seen,
            describes(r, old(self).config, x, a),
            final(self).begins_carry.d_struct_msb == behind_edge(old(self).config, x, a + 63),
            final(self).begins_carry.qb_msb == opens(old(self).config, x, a + 63),
            final(self).ends_carry == shuts(old(self).config, x, a + 63),
            final(self).prev_term_msb == stop_at(old(self).config, x, a + 63),
    {
        let ghost k = self.config;
        let p_delim_ooq: u64 = without(prev.structural.delim, prev.m);
        let p_term_ooq: u64 = without(prev.structural.term, prev.m);
        proof {
            assert forall|j: int| 0 <= j < 64 implies #[trigger] bit(p_delim_ooq, j) == cut_at(
                k,
                x,
                a + j,
            ) by {
                assert(bit(prev.structural.delim, j) == delim_at(k, x, a + j));
                assert(bit(prev.m, j) == inside(k, x, a + j + 1));
            }
            assert forall|j: int| 0 <= j < 64 implies #[trigger] bit(p_term_ooq, j) == stop_at(
                k,
                x,
                a + j,
            ) by {
                assert(bit(prev.structural.term, j) == term_at(k, x, a + j));
                assert(bit(prev.m, j) == inside(k, x, a + j + 1));
            }
        }
        // `B` keys off the run's end, `E` off its start — a `D_struct` each.
        let run_end_mask: u64 = terminator_run_ends(p_term_ooq, next.term_ooq);
        let run_start_mask: u64 = terminator_run_starts(p_term_ooq, self.prev_term_msb);
        let d_struct_b: u64 = either(p_delim_ooq, run_end_mask);
        let d_struct_e: u64 = either(p_delim_ooq, run_start_mask);
        proof {
            assert forall|j: int| 0 <= j < 64 implies #[trigger] bit(run_end_mask, j) == run_end(
                k,
                x,
                a + j,
            ) by {
                assert(bit(p_term_ooq, j) == stop_at(k, x, a + j));
                if j < 63 {
                    assert(bit(p_term_ooq, j + 1) == stop_at(k, x, a + (j + 1)));
                }
            }
            assert forall|j: int| 0 <= j < 64 implies #[trigger] bit(run_start_mask, j)
                == run_start(k, x, a + j) by {
                assert(bit(p_term_ooq, j) == stop_at(k, x, a + j));
                if j > 0 {
                    assert(bit(p_term_ooq, j - 1) == stop_at(k, x, a + (j - 1)));
                }
            }
            assert forall|j: int| 0 <= j < 64 implies #[trigger] bit(d_struct_b, j) == behind_edge(
                k,
                x,
                a + j,
            ) by {
                assert(bit(p_delim_ooq, j) == cut_at(k, x, a + j));
                assert(bit(run_end_mask, j) == run_end(k, x, a + j));
            }
            assert forall|j: int| 0 <= j < 64 implies #[trigger] bit(d_struct_e, j) == before_edge(
                k,
                x,
                a + j,
            ) by {
                assert(bit(p_delim_ooq, j) == cut_at(k, x, a + j));
                assert(bit(run_start_mask, j) == run_start(k, x, a + j));
            }
        }
        let (b, begins_carry) = compute_field_begins(
            d_struct_b,
            prev.structural.quote,
            self.begins_carry,
        );
        proof {
            let carry = self.begins_carry;
            let q = prev.structural.quote;
            assert forall|j: int| 0 <= j < 64 implies super::bitmask::opened(d_struct_b, carry, j)
                == behind_edge(k, x, a + j - 1) by {
                if j > 0 {
                    assert(bit(d_struct_b, j - 1) == behind_edge(k, x, a + (j - 1)));
                }
            }
            assert forall|j: int| 0 <= j < 64 implies #[trigger] bit(b, j) == begins(
                k,
                x,
                a + j,
            ) by {
                assert(super::bitmask::opened(d_struct_b, carry, j) == behind_edge(k, x, a + j - 1));
                assert(bit(q, j) == quote_at(k, x, a + j));
                if j > 0 {
                    assert(super::bitmask::opened(d_struct_b, carry, j - 1) == behind_edge(
                        k,
                        x,
                        a + (j - 1) - 1,
                    ));
                    assert(bit(q, j - 1) == quote_at(k, x, a + (j - 1)));
                }
            }
            assert(super::bitmask::opened(d_struct_b, carry, 63) == behind_edge(k, x, a + 63 - 1));
            assert(bit(q, 63) == quote_at(k, x, a + 63));
            assert(bit(d_struct_b, 63) == behind_edge(k, x, a + 63));
        }
        // Next `d_struct_e[0]`: a byte-0 terminator starts a run only if pending ended clear.
        let last_is_term = test_bit(p_term_ooq, 63);
        let next_run_start0 = next.term_ooq && !last_is_term;
        let next_d_lsb = next.delim_ooq || next_run_start0;
        assert(next_d_lsb == before_edge(k, x, a + 64)) by {
            assert(bit(p_term_ooq, 63) == stop_at(k, x, a + 63));
        }
        let (e, qe_msb) = compute_field_ends(
            d_struct_e,
            prev.structural.quote,
            prev.m,
            next_d_lsb,
            self.ends_carry,
        );
        proof {
            let q = prev.structural.quote;
            assert forall|j: int| 0 <= j < 64 implies super::bitmask::closes(
                d_struct_e,
                q,
                prev.m,
                next_d_lsb,
                j,
            ) == shuts(k, x, a + j) by {
                assert(bit(q, j) == quote_at(k, x, a + j));
                assert(bit(prev.m, j) == inside(k, x, a + j + 1));
                if j < 63 {
                    assert(bit(d_struct_e, j + 1) == before_edge(k, x, a + (j + 1)));
                }
            }
            assert forall|j: int| 0 <= j < 64 implies #[trigger] bit(e, j) == ends(
                k,
                x,
                a + j,
            ) by {
                assert(bit(d_struct_e, j) == before_edge(k, x, a + j));
                assert(super::bitmask::closes(d_struct_e, q, prev.m, next_d_lsb, j) == shuts(
                    k,
                    x,
                    a + j,
                ));
                if j > 0 {
                    assert(super::bitmask::closes(d_struct_e, q, prev.m, next_d_lsb, j - 1)
                        == shuts(k, x, a + (j - 1)));
                }
            }
            assert(super::bitmask::closes(d_struct_e, q, prev.m, next_d_lsb, 63) == shuts(
                k,
                x,
                a + 63,
            ));
        }
        // At end of input no byte follows byte 63, so no `B` lands past it.
        let next_b_lsb = next.there && ((begins_carry.d_struct_msb && !next.quote)
            || begins_carry.qb_msb);
        let r: u64 = compute_chars_to_remove(
            prev.structural.quote,
            prev.m,
            b,
            e,
            next_b_lsb,
            next.quote,
            self.config.doubled_quotes,
        );
        proof {
            let q = prev.structural.quote;
            assert(next_b_lsb == begins(k, x, a + 64));
            assert forall|j: int| 0 <= j < 64 implies #[trigger] bit(r, j) == gone(
                k,
                x,
                a + j,
            ) by {
                assert(bit(q, j) == quote_at(k, x, a + j));
                assert(bit(prev.m, j) == inside(k, x, a + j + 1));
                assert(bit(e, j) == ends(k, x, a + j));
                if j < 63 {
                    assert(bit(b, j + 1) == begins(k, x, a + (j + 1)));
                    assert(bit(q, j + 1) == quote_at(k, x, a + (j + 1)));
                }
            }
        }
        self.begins_carry = begins_carry;
        self.ends_carry = qe_msb;
        self.prev_term_msb = last_is_term;
        assert(bit(p_term_ooq, 63) == stop_at(k, x, a + 63));
        VectorOutput {
            b,
            e,
            r,
            // One boundary per record: the verifier keys off collapsed run ends.
            d_struct: d_struct_b,
            term: run_end_mask,
        }
    }

    /// Whether the scan is inside a quoted field; read at EOF to detect
    /// unclosed quotes.
    pub fn in_quotes(&self) -> (r: bool)
        requires
            self.wf() || self.spent(),
        ensures
            r == inside(self.chars(), self.stream(), self.stream().len() as int),
    {
        self.in_quotes_carry
    }

    /// The stream has been ended.
    pub closed spec fn spent(self) -> bool {
        self.in_quotes_carry == inside(self.config, self.seen@, self.seen@.len() as int)
    }

    /// Drain the pending vector, ending the stream: the resolve assumes no
    /// vector follows, so stepping on afterwards resumes from spent state.
    pub fn finalize(&mut self) -> (r: Option<VectorOutput>)
        requires
            old(self).wf(),
        ensures
            final(self).spent(),
            final(self).chars() == old(self).chars(),
            final(self).stream() == old(self).stream(),
            r is None <==> old(self).stream().len() == 0,
            r matches Some(out) ==> describes(
                out,
                old(self).chars(),
                old(self).stream(),
                old(self).stream().len() - 64,
            ),
    {
        let ghost w = self.seen@;
        match self.pending.take() {
            None => None,
            Some(prev) => {
                let next = Lookahead {
                    there: false,
                    delim_ooq: false,
                    term_ooq: false,
                    quote: false,
                };
                Some(self.resolve(&prev, &next, Ghost(w), Ghost(w.len() - 64)))
            },
        }
    }
}

/// The masks of a vector stay what they are when the stream goes on.
proof fn pending_extends(p: Pending, k: ScannerConfig, w: Seq<u8>, x: Seq<u8>, a: int)
    requires
        0 <= a,
        a + 64 == w.len(),
        w.len() <= x.len(),
        forall|i: int| 0 <= i < w.len() ==> x[i] == w[i],
        p.holds(k, w, a),
    ensures
        p.holds(k, x, a),
{
    assert forall|j: int| 0 <= j < 64 implies #[trigger] bit(p.m, j) == inside(
        k,
        x,
        a + j + 1,
    ) by {
        inside_same(k, w, x, a + j + 1);
    }
}

} // verus!
