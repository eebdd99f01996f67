//! The model that the contracts of all decoders are stated over: a cursor in
//! a page that yields one value per step, and the run of several steps.
use crate::basic::{DataType, Datum};
use crate::errors::ParquetError;
use vstd::prelude::*;

verus! {

/// What one step of a cursor gives.
pub enum Step<S> {
    /// The next value, and the cursor behind it.
    Yield(Datum, S),
    /// No value can be read here.
    Fail(ParquetError),
}

/// A position in a page from which values are read one after the other.
pub trait Cursor: Sized {
    /// The next value and the position behind it, or the error.
    spec fn step(self) -> Step<Self>;
}

/// The outcome of several steps.
pub struct Run<S> {
    /// The values of the steps that succeeded, in order.
    pub values: Seq<Datum>,
    /// The cursor behind the last value.
    pub state: S,
    /// The error of the step that failed, if one did.
    pub failure: Option<ParquetError>,
}

/// Takes up to `n` steps from `s`, stopping at the first that fails.
pub open spec fn run<S: Cursor>(s: S, n: nat) -> Run<S>
    decreases n,
{
    if n == 0 {
        Run { values: Seq::empty(), state: s, failure: None }
    } else {
        let r = run(s, (n - 1) as nat);
        if r.failure is Some {
            r
        } else {
            match r.state.step() {
                Step::Yield(v, next) => Run {
                    values: r.values.push(v),
                    state: next,
                    failure: None,
                },
                Step::Fail(e) => Run { values: r.values, state: r.state, failure: Some(e) },
            }
        }
    }
}

/// A run of `n` steps holds `n` values unless it failed, and never more.
pub proof fn lemma_run_len<S: Cursor>(s: S, n: nat)
    ensures
        run(s, n).values.len() <= n,
        run(s, n).failure is None ==> run(s, n).values.len() == n,
    decreases n,
{
    if n > 0 {
        lemma_run_len(s, (n - 1) as nat);
    }
}

/// Reading in two chunks gives what reading at once gives: a run of `a + b`
/// steps is the run of `a` steps followed by the run of `b` steps from where
/// the first ended. A run that has failed stays as it is.
pub proof fn lemma_run_split<S: Cursor>(s: S, a: nat, b: nat)
    ensures
        run(s, a).failure is Some ==> run(s, a + b) == run(s, a),
        run(s, a).failure is None ==> {
            &&& run(s, a + b).values == run(s, a).values + run(run(s, a).state, b).values
            &&& run(s, a + b).state == run(run(s, a).state, b).state
            &&& run(s, a + b).failure == run(run(s, a).state, b).failure
        },
    decreases b,
{
    let first = run(s, a);
    if b == 0 {
        assert(first.values + Seq::<Datum>::empty() =~= first.values);
    } else {
        lemma_run_split(s, a, (b - 1) as nat);
        assert(a + b - 1 == a + (b - 1));
        if first.failure is None {
            let rest = run(first.state, (b - 1) as nat);
            if rest.failure is None {
                match rest.state.step() {
                    Step::Yield(v, next) => {
                        assert((first.values + rest.values).push(v) =~= first.values
                            + rest.values.push(v));
                    },
                    Step::Fail(e) => {},
                }
            }
        }
    }
}

/// The values of a shorter run are the first values of a longer one.
pub proof fn lemma_run_prefix<S: Cursor>(s: S, a: nat, b: nat)
    ensures
        run(s, a).values.len() <= run(s, a + b).values.len(),
        run(s, a).values == run(s, a + b).values.take(run(s, a).values.len() as int),
{
    lemma_run_split(s, a, b);
    let first = run(s, a);
    if first.failure is None {
        let rest = run(first.state, b);
        assert((first.values + rest.values).take(first.values.len() as int) =~= first.values);
    } else {
        assert(first.values.take(first.values.len() as int) =~= first.values);
    }
}

/// Something that delivers the values of a cursor one at a time.
pub(crate) trait Source<T: DataType> {
    /// The model of the position in the page.
    type State: Cursor;

    /// Values can be pulled.
    spec fn primed(&self) -> bool;

    /// The position in the page.
    spec fn cursor(&self) -> Self::State;

    /// Reads the next value and moves behind it. After an error the position
    /// is not specified.
    fn read_value(&mut self) -> (r: Result<T::T, ParquetError>)
        requires
            old(self).primed(),
        ensures
            final(self).primed(),
            match old(self).cursor().step() {
                Step::Yield(d, next) => r matches Ok(v) && T::datum(v) == d && final(self).cursor()
                    == next,
                Step::Fail(e) => r matches Err(x) && x == e,
            },
    ;
}

/// Reads `count` values from `src` into the first `count` places of
/// `buffer`. The other places keep what they held.
pub(crate) fn drain<T: DataType, S: Source<T>>(src: &mut S, buffer: &mut [T::T], count: usize) -> (r:
    Result<(), ParquetError>)
    requires
        old(src).primed(),
        count <= old(buffer)@.len(),
    ensures
        final(src).primed(),
        final(buffer)@.len() == old(buffer)@.len(),
        match run(old(src).cursor(), count as nat).failure {
            None => {
                &&& r is Ok
                &&& final(src).cursor() == run(old(src).cursor(), count as nat).state
                &&& forall|i: int|
                    0 <= i < count ==> T::datum(#[trigger] final(buffer)@[i]) == run(
                        old(src).cursor(),
                        count as nat,
                    ).values[i]
                &&& forall|i: int|
                    count <= i < old(buffer)@.len() ==> final(buffer)@[i] == old(buffer)@[i]
            },
            Some(e) => r matches Err(x) && x == e,
        },
{
    let ghost start = src.cursor();
    let mut i: usize = 0;
    while i < count
        invariant
            i <= count <= buffer@.len(),
            buffer@.len() == old(buffer)@.len(),
            src.primed(),
            start == old(src).cursor(),
            run(start, i as nat).failure is None,
            run(start, i as nat).state == src.cursor(),
            run(start, i as nat).values.len() == i,
            forall|j: int|
                0 <= j < i ==> T::datum(#[trigger] buffer@[j]) == run(start, i as nat).values[j],
            forall|j: int| i <= j < buffer@.len() ==> buffer@[j] == old(buffer)@[j],
        decreases count - i,
    {
        let ghost before = run(start, i as nat);
        let ghost after = run(start, (i + 1) as nat);
        proof {
            assert((i + 1) as nat - 1 == i as nat);
            lemma_run_split(start, (i + 1) as nat, (count - i - 1) as nat);
            assert((i + 1) as nat + (count - i - 1) as nat == count as nat);
        }
        match src.read_value() {
            Ok(v) => {
                buffer[i] = v;
                proof {
                    assert(after.values == before.values.push(T::datum(v)));
                    assert forall|j: int| 0 <= j < i + 1 implies T::datum(#[trigger] buffer@[j])
                        == after.values[j] by {
                        if j < i {
                            assert(after.values[j] == before.values[j]);
                        }
                    }
                }
            },
            Err(e) => {
                proof {
                    assert(after.failure == Some(e));
                    assert(run(start, count as nat) == after);
                }
                return Err(e);
            },
        }
        i += 1;
    }
    Ok(())
}

} // verus!
