//! Folding records into a state with the accumulator of the caller.

use core::marker::PhantomData;

use vstd::prelude::*;
use vstd::utf8::valid_utf8;

use super::grammar::Record;
use super::output::Output;
use crate::error::{Error, UserError};

verus! {

/// The contents of the fields handed to an accumulator.
pub open spec fn contents<O: Output + ?Sized>(fields: Seq<&O>) -> Record {
    fields.map_values(|f: &O| f.bytes())
}

/// What records are folded with.
pub trait Accumulator<S, O: Output + ?Sized> {
    /// Given state `before`, the accumulator can answer `answer` to `record`.
    spec fn answers(&self, before: S, record: Record, answer: Result<S, UserError>) -> bool;

    /// The accumulator takes whatever comes.
    spec fn takes_all(&self) -> bool;

    /// Fold one record into `before`.
    fn take(&self, before: S, fields: &[&O]) -> (r: Result<S, UserError>)
        requires
            self.takes_all(),
        ensures
            self.answers(before, contents(fields@), r),
    ;
}

/// A function of the state and the fields is an accumulator.
impl<S, O: Output + ?Sized, F: Fn(S, &[&O]) -> Result<S, UserError>> Accumulator<S, O> for F {
    open spec fn answers(&self, before: S, record: Record, answer: Result<S, UserError>) -> bool {
        exists|fields: &[&O]| #[trigger]
            call_ensures(*self, (before, fields), answer) && contents(fields@) == record
    }

    open spec fn takes_all(&self) -> bool {
        forall|s: S, fields: &[&O]| call_requires(*self, (s, fields))
    }

    fn take(&self, before: S, fields: &[&O]) -> (r: Result<S, UserError>) {
        self(before, fields)
    }
}

/// What a function answers as an accumulator is what it returns for fields that hold
/// the record.
pub open spec fn answers_by_slice<S, O: Output + ?Sized, F: Fn(S, &[&O]) -> Result<S, UserError>>(
    acc: F,
) -> bool {
    forall|before: S, record: Record, answer: Result<S, UserError>|
        #![trigger answers::<S, O, F>(acc, before, record, answer)]
        answers::<S, O, F>(acc, before, record, answer) <==> exists|fields: &[&O]| #[trigger]
            call_ensures(acc, (before, fields), answer) && contents(fields@) == record
}

/// A function answers by what it returns.
pub proof fn functions_answer<S, O: Output + ?Sized, F: Fn(S, &[&O]) -> Result<S, UserError>>(acc: F)
    ensures
        answers_by_slice::<S, O, F>(acc),
{
}

/// Given state `before`, the accumulator can answer `answer` to `record`.
pub open spec fn answers<S, O: Output + ?Sized, A: Accumulator<S, O>>(
    acc: A,
    before: S,
    record: Record,
    answer: Result<S, UserError>,
) -> bool {
    acc.answers(before, record, answer)
}

/// Folding `records` from `init` on can lead to `state`. Text is folded only where
/// it is valid.
pub open spec fn folds<S, O: Output + ?Sized, A: Accumulator<S, O>>(
    acc: A,
    init: S,
    records: Seq<Record>,
    state: S,
) -> bool
    decreases records.len(),
{
    if records.len() == 0 {
        state == init
    } else {
        exists|mid: S|
            #![trigger answers::<S, O, A>(acc, mid, records.last(), Ok(state))]
            {
                &&& folds::<S, O, A>(acc, init, records.drop_last(), mid)
                &&& presentable::<O>(records.last())
                &&& answers::<S, O, A>(acc, mid, records.last(), Ok(state))
            }
    }
}

/// Folding `records` from `init` on, the accumulator can turn `next` down with `e`.
pub open spec fn refuses<S, O: Output + ?Sized, A: Accumulator<S, O>>(
    acc: A,
    init: S,
    records: Seq<Record>,
    next: Record,
    e: Error,
) -> bool {
    exists|mid: S, err: UserError|
        #![trigger answers::<S, O, A>(acc, mid, next, Err(err))]
        {
            &&& folds::<S, O, A>(acc, init, records, mid)
            &&& presentable::<O>(next)
            &&& answers::<S, O, A>(acc, mid, next, Err(err))
            &&& e == Error::of_user(err)
        }
}

/// The accumulator may be called on every state and every record.
pub open spec fn total<S, O: Output + ?Sized, A: Accumulator<S, O>>(
    acc: A,
) -> bool {
    acc.takes_all()
}

/// What the spans `(offset, length)` cut out of `buf`.
pub open spec fn cut(buf: Seq<u8>, spans: Seq<(usize, usize)>) -> Record {
    spans.map_values(|p: (usize, usize)| buf.subrange(p.0 as int, p.0 + p.1))
}

/// The spans lie in a buffer of `len` bytes.
pub open spec fn spans_within(spans: Seq<(usize, usize)>, len: int) -> bool {
    forall|i: int| 0 <= i < spans.len() ==> (#[trigger] spans[i]).0 + spans[i].1 <= len
}

/// Every field of `record` can be handed out in the form `O`.
pub open spec fn presentable<O: Output + ?Sized>(record: Record) -> bool {
    O::textual() ==> forall|i: int| 0 <= i < record.len() ==> valid_utf8(#[trigger] record[i])
}

/// An accumulator in the middle of a fold.
#[verifier::reject_recursive_types(S)]
#[verifier::reject_recursive_types(O)]
#[verifier::reject_recursive_types(A)]
pub struct Fold<'a, S, O: Output + ?Sized, A: Accumulator<S, O>> {
    acc: &'a A,
    state: Option<S>,
    init: Ghost<S>,
    log: Ghost<Seq<Record>>,
    bound: Ghost<nat>,
    form: PhantomData<O>,
}

/// How many bytes the fields of a record hold, all together.
pub open spec fn content(record: Record) -> nat
    decreases record.len(),
{
    if record.len() == 0 {
        0
    } else {
        content(record.drop_last()) + record.last().len()
    }
}

/// No record holds more than `n` bytes.
pub open spec fn fits_in(records: Seq<Record>, n: nat) -> bool {
    forall|r: int| 0 <= r < records.len() ==> content(#[trigger] records[r]) <= n
}

/// The spans follow one another.
pub open spec fn in_turn(spans: Seq<(usize, usize)>) -> bool {
    forall|i: int, j: int|
        0 <= i < j < spans.len() ==> (#[trigger] spans[i]).0 + spans[i].1 <= (
        #[trigger] spans[j]).0
}

/// Spans that follow one another cut no more out of a buffer than it holds.
proof fn cut_is_content(buf: Seq<u8>, spans: Seq<(usize, usize)>)
    requires
        spans_within(spans, buf.len() as int),
        in_turn(spans),
    ensures
        spans.len() == 0 ==> content(cut(buf, spans)) == 0,
        spans.len() > 0 ==> content(cut(buf, spans)) <= spans.last().0 + spans.last().1,
        content(cut(buf, spans)) <= buf.len(),
    decreases spans.len(),
{
    if spans.len() > 0 {
        let before = spans.drop_last();
        assert forall|i: int| 0 <= i < before.len() implies (#[trigger] before[i]).0 + before[i].1
            <= buf.len() by {
            assert(spans[i].0 + spans[i].1 <= buf.len());
        }
        cut_is_content(buf, before);
        assert(cut(buf, spans).drop_last() =~= cut(buf, before));
        let last = spans.len() - 1;
        assert(spans[last].0 + spans[last].1 <= buf.len());
        if before.len() > 0 {
            assert(spans[last - 1].0 + spans[last - 1].1 <= spans[last].0);
        }
    }
}

impl<'a, S, O: Output + ?Sized, A: Accumulator<S, O>> Fold<'a, S, O, A> {
    /// The accumulator.
    pub closed spec fn acc(self) -> A {
        *self.acc
    }

    /// The state the fold started from.
    pub closed spec fn init(self) -> S {
        self.init@
    }

    /// The records folded so far.
    pub closed spec fn log(self) -> Seq<Record> {
        self.log@
    }

    /// How many bytes the buffer that records are cut out of can hold.
    pub closed spec fn bound(self) -> nat {
        self.bound@
    }

    /// A state is at hand, and it is one that the records lead to.
    pub closed spec fn wf(self) -> bool {
        &&& total::<S, O, A>(*self.acc)
        &&& fits_in(self.log@, self.bound@)
        &&& self.state matches Some(s) && folds::<S, O, A>(*self.acc, self.init@, self.log@, s)
    }

    /// The state at hand.
    pub closed spec fn state(self) -> S {
        self.state->0
    }

    /// Start folding from `state`.
    pub fn new(acc: &'a A, state: S) -> (r: Self)
        requires
            total::<S, O, A>(*acc),
        ensures
            r.wf(),
            r.acc() == *acc,
            r.init() == state,
            r.log() == Seq::<Record>::empty(),
            r.bound() == usize::MAX,
    {
        Self::within(acc, state, Ghost(usize::MAX as nat))
    }

    /// Start folding from `state` what is cut out of a buffer of at most `bound` bytes.
    pub fn within(acc: &'a A, state: S, Ghost(bound): Ghost<nat>) -> (r: Self)
        requires
            total::<S, O, A>(*acc),
        ensures
            r.wf(),
            r.acc() == *acc,
            r.init() == state,
            r.log() == Seq::<Record>::empty(),
            r.bound() == bound,
    {
        Fold {
            acc,
            init: Ghost(state),
            state: Some(state),
            log: Ghost(Seq::empty()),
            bound: Ghost(bound),
            form: PhantomData,
        }
    }

    /// Fold the record that the spans cut out of `buf`.
    pub fn emit(&mut self, buf: &[u8], spans: &[(usize, usize)]) -> (r: Result<(), Error>)
        requires
            old(self).wf(),
            buf@.len() <= old(self).bound(),
            spans_within(spans@, buf@.len() as int),
            in_turn(spans@),
            presentable::<O>(cut(buf@, spans@)),
        ensures
            final(self).acc() == old(self).acc(),
            final(self).init() == old(self).init(),
            final(self).bound() == old(self).bound(),
            match r {
                Ok(_) => final(self).wf() && final(self).log() == old(self).log().push(
                    cut(buf@, spans@),
                ),
                Err(e) => final(self).log() == old(self).log() && refuses::<S, O, A>(
                    old(self).acc(),
                    old(self).init(),
                    old(self).log(),
                    cut(buf@, spans@),
                    e,
                ),
            },
    {
        let ghost record = cut(buf@, spans@);
        let len: usize = buf.len();
        let mut fields: Vec<&O> = Vec::new();
        let mut i: usize = 0;
        while i < spans.len()
            invariant
                i <= spans@.len(),
                record == cut(buf@, spans@),
                len == buf@.len(),
                spans_within(spans@, len as int),
                presentable::<O>(record),
                contents(fields@) == record.take(i as int),
            decreases spans@.len() - i,
        {
            let (off, size) = spans[i];
            assert(spans@[i as int].0 + spans@[i as int].1 <= buf@.len());
            let bytes: &[u8] = vstd::slice::slice_subrange(buf, off, off + size);
            assert(record[i as int] == bytes@);
            let ghost before = fields@;
            fields.push(O::of_bytes(bytes));
            i += 1;
            assert(contents(fields@) =~= contents(before).push(bytes@));
            assert(contents(fields@) =~= record.take(i as int));
        }
        assert(record.take(i as int) =~= record);
        let state = self.state.take().unwrap();
        let ghost mid = state;
        let slice: &[&O] = fields.as_slice();
        match self.acc.take(state, slice) {
            Ok(next) => {
                proof {
                    let all = self.log@.push(record);
                    assert(all.drop_last() =~= self.log@);
                    assert(answers::<S, O, A>(*self.acc, mid, all.last(), Ok(next)));
                    assert(folds::<S, O, A>(*self.acc, self.init@, all, next));
                    cut_is_content(buf@, spans@);
                }
                self.log = Ghost(self.log@.push(record));
                self.state = Some(next);
                Ok(())
            },
            Err(err) => {
                assert(answers::<S, O, A>(*self.acc, mid, record, Err(err)));
                Err(Error::from_user(err))
            },
        }
    }

    /// The state at hand is one that the records lead to.
    pub proof fn state_folds(self)
        requires
            self.wf(),
        ensures
            folds::<S, O, A>(self.acc(), self.init(), self.log(), self.state()),
            fits_in(self.log(), self.bound()),
    {
    }

    /// End the fold.
    pub fn into_state(self) -> (r: S)
        requires
            self.wf(),
        ensures
            folds::<S, O, A>(self.acc(), self.init(), self.log(), r),
            r == self.state(),
    {
        self.state.unwrap()
    }
}

/// The record that fields make up is their bytes, in order.
pub proof fn a_record_is_its_fields<O: Output + ?Sized>(fields: Seq<&O>)
    ensures
        contents(fields).len() == fields.len(),
        forall|i: int| 0 <= i < fields.len() ==> #[trigger] contents(fields)[i] == fields[i].bytes(),
{
}

/// A function is called with the fields of the record, in order, and its answer is what it
/// returned.
pub proof fn functions_are_called_with_the_fields<
    S,
    O: Output + ?Sized,
    F: Fn(S, &[&O]) -> Result<S, UserError>,
>(acc: F, before: S, record: Record, answer: Result<S, UserError>)
    requires
        answers::<S, O, F>(acc, before, record, answer),
    ensures
        exists|fields: &[&O]| #[trigger]
            call_ensures(acc, (before, fields), answer) && fields@.len() == record.len() && (forall|
                i: int,
            |
                0 <= i < record.len() ==> (#[trigger] fields@[i]).bytes() == record[i]),
{
    functions_answer::<S, O, F>(acc);
    let fields = choose|fields: &[&O]| #[trigger]
        call_ensures(acc, (before, fields), answer) && contents(fields@) == record;
    assert forall|i: int| 0 <= i < record.len() implies (#[trigger] fields@[i]).bytes()
        == record[i] by {
        assert(contents(fields@)[i] == fields@[i].bytes());
    }
    assert(call_ensures(acc, (before, fields), answer));
}

/// Folding one run of records after another is folding both.
pub proof fn folds_are_joined<S, O: Output + ?Sized, A: Accumulator<S, O>>(
    acc: A,
    init: S,
    some: Seq<Record>,
    mid: S,
    more: Seq<Record>,
    state: S,
)
    requires
        folds::<S, O, A>(acc, init, some, mid),
        folds::<S, O, A>(acc, mid, more, state),
    ensures
        folds::<S, O, A>(acc, init, some + more, state),
    decreases more.len(),
{
    let all = some + more;
    if more.len() == 0 {
        assert(all =~= some);
    } else {
        let before = choose|before: S|
            #![trigger answers::<S, O, A>(acc, before, more.last(), Ok(state))]
            {
                &&& folds::<S, O, A>(acc, mid, more.drop_last(), before)
                &&& presentable::<O>(more.last())
                &&& answers::<S, O, A>(acc, before, more.last(), Ok(state))
            };
        folds_are_joined::<S, O, A>(acc, init, some, mid, more.drop_last(), before);
        assert(all.drop_last() =~= some + more.drop_last());
        assert(answers::<S, O, A>(acc, before, all.last(), Ok(state)));
    }
}

/// What a record holds is what its fields hold, added up.
pub proof fn content_adds_up(record: Record, f: Seq<u8>)
    ensures
        content(record.push(f)) == content(record) + f.len(),
        content(seq![]) == 0,
{
    assert(record.push(f).drop_last() =~= record);
}

/// Fields that are handed out as text have to be text, those that are handed out as bytes
/// need not be anything.
pub proof fn only_text_has_to_be_text<O: Output + ?Sized>(record: Record)
    ensures
        !O::textual() ==> presentable::<O>(record),
        O::textual() ==> (presentable::<O>(record) <==> forall|i: int|
            0 <= i < record.len() ==> valid_utf8(#[trigger] record[i])),
{
}

} // verus!
