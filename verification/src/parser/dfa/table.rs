//! The dialect as a transition table, with the scans that skip plain content.

use vstd::prelude::*;

use super::needles::{marked_among, StructuralNeedles};
use crate::config::{ends_record, Config, QuoteHandling};

verus! {

/// DFA states for CSV parsing.
///
/// Interior states (where parsing continues byte by byte) come first, action
/// states (field end / record end / error) last, so that one comparison of
/// codes with [`FIRST_ACTION`] tells them apart.
#[derive(Debug, Copy, Clone, PartialEq, Eq, Structural)]
pub enum State {
    /// Inside an unquoted field.
    InField,
    /// Inside a quoted field.
    InQuotedField,
    /// Beginning of a record.
    RecordStart,
    /// Beginning of a field. Decides quoted vs unquoted.
    FieldStart,
    /// After a closing quote in a quoted field.
    AfterClosingQuote,
    /// After an escape character inside a quoted field. Next byte is literal.
    InEscapedQuote,
    /// Inside a comment line, consuming until newline.
    InComment,
    /// A field just ended (delimiter consumed).
    FieldEnd,
    /// A record just ended (terminator consumed).
    RecordEnd,
    /// Parse error (e.g. quote not at a field boundary in strict quote style).
    Error,
}

/// All states with a code >= this are action states.
pub const FIRST_ACTION: u8 = 7;

/// Code of the RecordEnd action.
pub const RECORD_END_STATE: u8 = 8;

/// Code of the Error action.
pub const ERROR_STATE: u8 = 9;

impl State {
    /// The number a state is stored as.
    pub open spec fn number(self) -> u8 {
        match self {
            State::InField => 0,
            State::InQuotedField => 1,
            State::RecordStart => 2,
            State::FieldStart => 3,
            State::AfterClosingQuote => 4,
            State::InEscapedQuote => 5,
            State::InComment => 6,
            State::FieldEnd => 7,
            State::RecordEnd => 8,
            State::Error => 9,
        }
    }

    /// The state stored as `n`; numbers above the last state's count as `Error`.
    pub open spec fn numbered(n: u8) -> State {
        if n == 0 {
            State::InField
        } else if n == 1 {
            State::InQuotedField
        } else if n == 2 {
            State::RecordStart
        } else if n == 3 {
            State::FieldStart
        } else if n == 4 {
            State::AfterClosingQuote
        } else if n == 5 {
            State::InEscapedQuote
        } else if n == 6 {
            State::InComment
        } else if n == 7 {
            State::FieldEnd
        } else if n == 8 {
            State::RecordEnd
        } else {
            State::Error
        }
    }

    /// The number a state is stored as.
    pub fn code(self) -> (r: u8)
        ensures
            r == self.number(),
            r < 10,
            State::numbered(r) == self,
    {
        match self {
            State::InField => 0,
            State::InQuotedField => 1,
            State::RecordStart => 2,
            State::FieldStart => 3,
            State::AfterClosingQuote => 4,
            State::InEscapedQuote => 5,
            State::InComment => 6,
            State::FieldEnd => 7,
            State::RecordEnd => 8,
            State::Error => 9,
        }
    }
}

/// What one byte does in one state.
pub struct Cell {
    /// The state the byte leads to.
    pub next: State,
    /// The byte is content of the field.
    pub output: bool,
    /// A probe for misplaced quotes turns the byte down.
    pub strict: bool,
}

/// A step to `next`, with or without the byte as content.
pub open spec fn to(next: State, output: bool) -> Cell {
    Cell { next, output, strict: false }
}

/// The same step, turned down by the strict probe.
pub open spec fn flagged(next: State, output: bool) -> Cell {
    Cell { next, output, strict: true }
}

/// What byte `b` does at the start of a field.
pub open spec fn field_start_cell(c: Config, b: u8) -> Cell {
    if c.quote == Some(b) {
        to(State::InQuotedField, false)
    } else if b == c.delimiter {
        to(State::FieldEnd, false)
    } else if c.terminator.ends(b) {
        to(State::RecordEnd, false)
    } else {
        to(State::InField, true)
    }
}

/// The dialect: what byte `b` does in state `s`.
pub open spec fn cell(c: Config, s: State, b: u8) -> Cell {
    match s {
        State::FieldStart => field_start_cell(c, b),
        State::RecordStart => if c.terminator.ends(b) {
            // an empty line is no record
            to(State::RecordStart, false)
        } else if c.comment == Some(b) {
            to(State::InComment, false)
        } else {
            field_start_cell(c, b)
        },
        State::InField => if b == c.delimiter {
            to(State::FieldEnd, false)
        } else if c.terminator.ends(b) {
            to(State::RecordEnd, false)
        } else if c.quote == Some(b) {
            match c.quote_handling {
                QuoteHandling::Toggle => flagged(State::InQuotedField, false),
                QuoteHandling::Literal => flagged(State::InField, true),
                QuoteHandling::Strict => to(State::Error, false),
            }
        } else {
            to(State::InField, true)
        },
        State::InQuotedField => if c.escape == Some(b) && !c.doubled() {
            to(State::InEscapedQuote, false)
        } else if c.quote == Some(b) {
            to(State::AfterClosingQuote, false)
        } else {
            to(State::InQuotedField, true)
        },
        State::AfterClosingQuote => if c.doubled() && c.quote == Some(b) {
            to(State::InQuotedField, true)
        } else if b == c.delimiter {
            to(State::FieldEnd, false)
        } else if c.terminator.ends(b) {
            to(State::RecordEnd, false)
        } else if c.quote_handling == QuoteHandling::Strict {
            to(State::Error, false)
        } else if c.quote_handling == QuoteHandling::Toggle && c.quote == Some(b) {
            flagged(State::InQuotedField, false)
        } else {
            flagged(State::InField, true)
        },
        State::InEscapedQuote => to(State::InQuotedField, true),
        State::InComment => if b == 0x0A || c.terminator.ends(b) {
            to(State::RecordStart, false)
        } else {
            to(State::InComment, false)
        },
        _ => to(State::Error, false),
    }
}

/// A single DFA transition: next state and whether the current byte should
/// be emitted as part of the field.
///
/// Bit layout:
/// - bits 0..=7 — code of the next state
/// - bit 8     — the byte goes to the output
/// - bit 9     — an error for the strict probe only, see `is_strict_error`
#[derive(Debug, Copy, Clone, PartialEq, Eq, Structural)]
pub struct Transition(pub u16);

/// Bit set when the byte should be written to the output buffer.
pub const HAS_OUTPUT: u16 = 0x100;

/// Bit set when the strict probe should treat the cell as an error.
pub const STRICT_ERROR: u16 = 0x200;

/// The word that a cell is packed into.
#[verifier::opaque]
pub open spec fn packed(k: Cell) -> u16 {
    let low = k.next.number() as u16 | if k.output {
        HAS_OUTPUT
    } else {
        0
    };
    if k.strict {
        low | STRICT_ERROR
    } else {
        low
    }
}

/// What is packed can be read off again.
pub proof fn packed_says(k: Cell)
    ensures
        Transition(packed(k)).cell() == k,
        packed(k) & 0xff < 10,
{
    reveal(packed);
    let low = k.next.number() as u16;
    assert(low < 10 ==> {
        &&& (low | 0x100u16) & 0xff == low
        &&& (low | 0x100u16) & 0x100 != 0
        &&& (low | 0x100u16) & 0x200 == 0
        &&& (low | 0u16) & 0xff == low
        &&& (low | 0u16) & 0x100 == 0
        &&& (low | 0u16) & 0x200 == 0
        &&& ((low | 0x100u16) | 0x200u16) & 0xff == low
        &&& ((low | 0x100u16) | 0x200u16) & 0x100 != 0
        &&& ((low | 0x100u16) | 0x200u16) & 0x200 != 0
        &&& ((low | 0u16) | 0x200u16) & 0xff == low
        &&& ((low | 0u16) | 0x200u16) & 0x100 == 0
        &&& ((low | 0u16) | 0x200u16) & 0x200 != 0
    }) by (bit_vector);
}

impl Transition {
    /// What the packed bits say.
    pub open spec fn cell(self) -> Cell {
        Cell {
            next: State::numbered((self.0 & 0xff) as u8),
            output: self.0 & HAS_OUTPUT != 0,
            strict: self.0 & STRICT_ERROR != 0,
        }
    }

    /// A transition to `next` that the strict probe accepts.
    pub fn new(next: State, has_output: bool) -> (r: Self)
        ensures
            r.0 == packed(to(next, has_output)),
            r.cell() == to(next, has_output),
            r.0 & 0xff < 10,
    {
        let low: u16 = next.code() as u16;
        proof {
            reveal(packed);
            packed_says(to(next, has_output));
        }
        Transition(
            low | if has_output {
                HAS_OUTPUT
            } else {
                0
            },
        )
    }

    /// Return a copy of this transition with the strict-error bit set.
    pub fn with_strict_error(self) -> (r: Self)
        ensures
            r.0 == self.0 | STRICT_ERROR,
            r.0 | STRICT_ERROR == r.0,
            forall|k: Cell|
                self.0 == #[trigger] packed(k) ==> r.0 == packed(Cell { strict: true, ..k }),
            r.cell() == (Cell { strict: true, ..self.cell() }),
            r.0 & 0xff == self.0 & 0xff,
    {
        let x: u16 = self.0;
        proof {
            assert((x | 0x200u16) & 0xff == x & 0xff && (x | 0x200u16) & 0x100 == x & 0x100 && (x
                | 0x200u16) & 0x200 != 0 && ((x | 0x200u16) | 0x200u16) == x | 0x200u16) by (bit_vector);
            assert forall|k: Cell| self.0 == #[trigger] packed(k) implies x | STRICT_ERROR == packed(
                Cell { strict: true, ..k },
            ) by {
                reveal(packed);
                let low = k.next.number() as u16 | if k.output {
                    HAS_OUTPUT
                } else {
                    0
                };
                assert(((low | 0x200u16) | 0x200u16) == low | 0x200u16) by (bit_vector);
            }
        }
        Transition(x | STRICT_ERROR)
    }

    /// Raw next-state byte.
    pub fn next_raw(self) -> (r: u8)
        ensures
            r == (self.0 & 0xff) as u8,
            State::numbered(r) == self.cell().next,
            self.0 & 0xff < 10 ==> r == self.cell().next.number(),
    {
        (self.0 & 0xff) as u8
    }

    /// Whether the byte is content of the field.
    pub fn has_output(self) -> (r: bool)
        ensures
            r == self.cell().output,
    {
        (self.0 & HAS_OUTPUT) != 0
    }

    /// Whether the strict probe should reject this cell.
    pub fn is_strict_error(self) -> (r: bool)
        ensures
            r == self.cell().strict,
    {
        (self.0 & STRICT_ERROR) != 0
    }

    /// The state the byte leads to.
    pub fn next_state(self) -> (r: State)
        ensures
            r == self.cell().next,
    {
        match self.next_raw() {
            0 => State::InField,
            1 => State::InQuotedField,
            2 => State::RecordStart,
            3 => State::FieldStart,
            4 => State::AfterClosingQuote,
            5 => State::InEscapedQuote,
            6 => State::InComment,
            7 => State::FieldEnd,
            8 => State::RecordEnd,
            _ => State::Error,
        }
    }
}

/// A precomputed CSV state machine.
///
/// All configuration (delimiter, quote, escape, strictness, terminator,
/// comment) is baked into the transition table at construction time. The
/// hot path is a single table lookup plus a handful of updates.
///
/// Cells that would be `Error` only under `QuoteHandling::Strict` are kept
/// at their parse-mode (lenient/literal) next state and tagged for the strict
/// probe. The strict probe checks that bit to reject wrong assumptions; the
/// parsing hot loop ignores it.
#[derive(Debug)]
pub struct Dfa {
    pub table: [[Transition; 256]; 10],
    /// Byte mask for `RecordStart`. Non-structural bytes are terminator
    /// bytes that self-loop in `RecordStart` with no output (empty-line
    /// skip); the scan-only fast path advances past runs of them
    /// without going through the table.
    pub record_start_structural: [bool; 256],
    /// Structural needle sets for the two "content" states. Their
    /// non-structural bytes loop back with output, so once
    /// the scan jumps past a run it can be moved as a whole.
    pub in_field_needles: StructuralNeedles,
    pub in_quoted_needles: StructuralNeedles,
}

/// The row of state `s` is the dialect's, for all bytes below `n`.
pub open spec fn row_is(
    table: [[Transition; 256]; 10],
    c: Config,
    s: State,
    n: int,
) -> bool {
    forall|b: u8|
        b < n ==> (#[trigger] table@[s.number() as int]@[b as int]).0 == packed(cell(c, s, b))
}

/// `b` ends the plain content that an unquoted field starts with.
pub open spec fn ends_plain(c: Config, b: u8) -> bool {
    cell(c, State::InField, b) != to(State::InField, true) && !(cell(c, State::InField, b)
        == flagged(State::InField, true))
}

/// `b` ends the plain content that a quoted field starts with.
pub open spec fn ends_quoted(c: Config, b: u8) -> bool {
    cell(c, State::InQuotedField, b) != to(State::InQuotedField, true)
}

impl Dfa {
    /// The table holds the dialect of `c`.
    pub open spec fn speaks(self, c: Config) -> bool {
        &&& forall|s: State, b: u8|
            (#[trigger] self.table@[s.number() as int]@[b as int]).cell() == cell(c, s, b)
                && self.table@[s.number() as int]@[b as int].0 == packed(cell(c, s, b))
                && self.table@[s.number() as int]@[b as int].0 & 0xff < 10
        &&& forall|b: u8| #[trigger]
            self.record_start_structural@[b as int] == !c.terminator.ends(b)
        &&& self.in_field_needles.wf()
        &&& self.in_quoted_needles.wf()
        &&& forall|b: u8| #[trigger] self.in_field_needles.has(b) <==> ends_plain(c, b)
        &&& forall|b: u8| #[trigger] self.in_quoted_needles.has(b) <==> ends_quoted(c, b)
    }

    /// Build a DFA transition table from the given configuration.
    ///
    /// Cells that would be `Error` only under `QuoteHandling::Strict` keep
    /// their parse-mode next state and gain the strict-error flag,
    /// so a single table serves both the user's parse semantics and the
    /// strict probe.
    #[verifier::rlimit(60)]
    pub fn new(config: &Config) -> (r: Self)
        ensures
            r.speaks(*config),
    {
        let error = Transition::new(State::Error, false);
        let mut table: [[Transition; 256]; 10] = [[error; 256]; 10];
        let mut in_field_structural: [bool; 256] = [false; 256];
        let mut in_quoted_structural: [bool; 256] = [false; 256];
        let mut record_start_structural: [bool; 256] = [true; 256];
        let quote_handling = config.quote_handling;
        let doubled_quotes = match (config.quote, config.escape) {
            (Some(q), Some(e)) => q == e,
            _ => false,
        };
        let (term_a, term_b) = config.terminator.bytes();

        // First pass: build every row that is reached without replay.
        let mut i: usize = 0;
        while i < 256
            invariant
                i <= 256,
                quote_handling == config.quote_handling,
                doubled_quotes == config.doubled(),
                forall|b: u8| #[trigger] config.terminator.ends(b) <==> (b == term_a || term_b == Some(b)),
                row_is(table, *config, State::FieldStart, i as int),
                row_is(table, *config, State::InField, i as int),
                row_is(table, *config, State::InQuotedField, i as int),
                row_is(table, *config, State::AfterClosingQuote, i as int),
                row_is(table, *config, State::InEscapedQuote, i as int),
                row_is(table, *config, State::InComment, i as int),
                row_is(table, *config, State::FieldEnd, 256),
                row_is(table, *config, State::RecordEnd, 256),
                row_is(table, *config, State::Error, 256),
                forall|b: u8| b < i ==> #[trigger] in_field_structural@[b as int] == ends_plain(*config, b),
                forall|b: u8| b < i ==> #[trigger] in_quoted_structural@[b as int] == ends_quoted(*config, b),
            decreases 256 - i,
        {
            let b: u8 = i as u8;
            let is_terminator = b == term_a || match term_b {
                Some(t) => b == t,
                None => false,
            };
            let is_quote = match config.quote {
                Some(q) => b == q,
                None => false,
            };
            let is_escape = match config.escape {
                Some(e) => b == e,
                None => false,
            };
            assert(is_quote == (config.quote == Some(b)));
            assert(is_escape == (config.escape == Some(b)));
            assert(is_terminator == config.terminator.ends(b));

            // ── FieldStart ───────────────────────────────────────────
            let field_start = if is_quote {
                Transition::new(State::InQuotedField, false)
            } else if b == config.delimiter {
                Transition::new(State::FieldEnd, false)
            } else if is_terminator {
                Transition::new(State::RecordEnd, false)
            } else {
                Transition::new(State::InField, true)
            };

            // ── InField ──────────────────────────────────────────────
            let (in_field, in_field_struct) = if b == config.delimiter {
                (Transition::new(State::FieldEnd, false), true)
            } else if is_terminator {
                (Transition::new(State::RecordEnd, false), true)
            } else if is_quote {
                // Toggle/Literal: the cell follows the user's chosen
                // semantics but is tagged so the probe rejects it.
                // Literal keeps the byte as content, hence
                // not structural for parse mode.
                match quote_handling {
                    QuoteHandling::Toggle => (
                        Transition::new(State::InQuotedField, false).with_strict_error(),
                        true,
                    ),
                    QuoteHandling::Literal => (
                        Transition::new(State::InField, true).with_strict_error(),
                        false,
                    ),
                    QuoteHandling::Strict => (Transition::new(State::Error, false), true),
                }
            } else {
                (Transition::new(State::InField, true), false)
            };

            // ── InQuotedField ────────────────────────────────────────
            let (in_quoted, in_quoted_struct) = if is_escape && !doubled_quotes {
                (Transition::new(State::InEscapedQuote, false), true)
            } else if is_quote {
                (Transition::new(State::AfterClosingQuote, false), true)
            } else {
                (Transition::new(State::InQuotedField, true), false)
            };

            // ── AfterClosingQuote ────────────────────────────────────
            let after_closing = if doubled_quotes && is_quote {
                Transition::new(State::InQuotedField, true)
            } else if b == config.delimiter {
                Transition::new(State::FieldEnd, false)
            } else if is_terminator {
                Transition::new(State::RecordEnd, false)
            } else if quote_handling == QuoteHandling::Strict {
                Transition::new(State::Error, false)
            } else if quote_handling == QuoteHandling::Toggle && is_quote {
                // Every quote toggles under Toggle — re-enter the
                // quoted field rather than smoothing into InField.
                Transition::new(State::InQuotedField, false).with_strict_error()
            } else {
                // Toggle/Literal: keep the lenient continuation but
                // flag the probe — a non-structural byte after a
                // closing quote means a wrong InQuotes assumption.
                Transition::new(State::InField, true).with_strict_error()
            };

            // ── InEscapedQuote ───────────────────────────────────────
            // Any byte is literal content in the quoted field.
            let in_escaped = Transition::new(State::InQuotedField, true);

            // ── InComment ────────────────────────────────────────────
            let in_comment = if b == 0x0A || is_terminator {
                Transition::new(State::RecordStart, false)
            } else {
                Transition::new(State::InComment, false)
            };

            table[State::FieldStart.code() as usize][i] = field_start;
            table[State::InField.code() as usize][i] = in_field;
            table[State::InQuotedField.code() as usize][i] = in_quoted;
            table[State::AfterClosingQuote.code() as usize][i] = after_closing;
            table[State::InEscapedQuote.code() as usize][i] = in_escaped;
            table[State::InComment.code() as usize][i] = in_comment;
            in_field_structural[i] = in_field_struct;
            in_quoted_structural[i] = in_quoted_struct;
            i += 1;
        }

        // Second pass: RecordStart. An empty line is skipped, a comment byte
        // opens a comment, and any other byte does what `FieldStart` does with
        // it, so every main-loop iteration advances exactly once.
        let mut i: usize = 0;
        while i < 256
            invariant
                i <= 256,
                forall|b: u8| #[trigger] config.terminator.ends(b) <==> (b == term_a || term_b == Some(b)),
                row_is(table, *config, State::RecordStart, i as int),
                row_is(table, *config, State::FieldStart, 256),
                row_is(table, *config, State::InField, 256),
                row_is(table, *config, State::InQuotedField, 256),
                row_is(table, *config, State::AfterClosingQuote, 256),
                row_is(table, *config, State::InEscapedQuote, 256),
                row_is(table, *config, State::InComment, 256),
                row_is(table, *config, State::FieldEnd, 256),
                row_is(table, *config, State::RecordEnd, 256),
                row_is(table, *config, State::Error, 256),
                forall|b: u8|
                    #[trigger] record_start_structural@[b as int] == !(b < i && config.terminator.ends(b)),
            decreases 256 - i,
        {
            let b: u8 = i as u8;
            let is_terminator = b == term_a || match term_b {
                Some(t) => b == t,
                None => false,
            };
            let is_comment = match config.comment {
                Some(c) => b == c,
                None => false,
            };
            assert(is_comment == (config.comment == Some(b)));
            assert(is_terminator == config.terminator.ends(b));
            let record_start = if is_terminator {
                record_start_structural[i] = false;
                Transition::new(State::RecordStart, false)
            } else if is_comment {
                Transition::new(State::InComment, false)
            } else {
                let t: Transition = table[State::FieldStart.code() as usize][i];
                assert(table@[State::FieldStart.number() as int]@[b as int].0 == packed(
                    cell(*config, State::FieldStart, b),
                ));
                t
            };
            table[State::RecordStart.code() as usize][i] = record_start;
            i += 1;
        }
        proof {
            let quote = match config.quote {
                Some(q) => q,
                None => term_a,
            };
            let escape = match config.escape {
                Some(e) => e,
                None => term_a,
            };
            let second = match term_b {
                Some(t) => t,
                None => term_a,
            };
            assert(marked_among(in_field_structural@, config.delimiter, term_a, second, quote));
            assert(marked_among(in_quoted_structural@, escape, quote, quote, quote));
        }
        let in_field_needles = StructuralNeedles::from_mask(&in_field_structural);
        let in_quoted_needles = StructuralNeedles::from_mask(&in_quoted_structural);
        let r = Dfa { table, record_start_structural, in_field_needles, in_quoted_needles };
        assert forall|s: State, b: u8|
            (#[trigger] r.table@[s.number() as int]@[b as int]).cell() == cell(*config, s, b)
                && r.table@[s.number() as int]@[b as int].0 == packed(cell(*config, s, b))
                && r.table@[s.number() as int]@[b as int].0 & 0xff < 10 by {
            assert(row_is(table, *config, s, 256));
            packed_says(cell(*config, s, b));
        }
        r
    }

    /// Look up the transition for the given state and byte.
    pub fn transition(&self, state: State, byte: u8) -> (r: Transition)
        ensures
            r == self.table@[state.number() as int]@[byte as int],
            forall|c: Config| #[trigger]
                self.speaks(c) ==> r.cell() == cell(c, state, byte) && r.0 == packed(
                    cell(c, state, byte),
                ) && r.0 & 0xff < 10,
    {
        self.table[state.code() as usize][byte as usize]
    }

    /// Byte mask of structural bytes in `RecordStart`. Non-structural bytes
    /// are terminators that self-loop without producing output.
    pub fn record_start_structural(&self) -> (r: &[bool; 256])
        ensures
            r == &self.record_start_structural,
    {
        &self.record_start_structural
    }

    /// Structural needle set for `InField`, for the scan fast path.
    /// Excludes the quote byte under `QuoteHandling::Literal` (where a
    /// quote in an unquoted field is content) — so the strict probe has
    /// to run on a Toggle-built table, not this one.
    pub fn in_field_needles(&self) -> (r: &StructuralNeedles)
        ensures
            r == &self.in_field_needles,
    {
        &self.in_field_needles
    }

    /// Structural needle set for `InQuotedField`, for the scan fast path.
    pub fn in_quoted_needles(&self) -> (r: &StructuralNeedles)
        ensures
            r == &self.in_quoted_needles,
    {
        &self.in_quoted_needles
    }
}

/// What a scan of plain content stops at: outside quotes the delimiter, what ends a record,
/// and a quote unless it is content there; inside quotes the quote and the escape byte.
pub proof fn scans_stop_at_control_bytes(c: Config, b: u8)
    requires
        c.escape is Some ==> c.quote is Some,
    ensures
        ends_plain(c, b) <==> b == c.delimiter || ends_record(c.terminator, b) || (c.quote == Some(b)
            && c.quote_handling != QuoteHandling::Literal),
        ends_quoted(c, b) <==> c.quote == Some(b) || c.escape == Some(b),
{
}

} // verus!
