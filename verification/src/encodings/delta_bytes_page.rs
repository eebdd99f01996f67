//! DELTA_LENGTH_BYTE_ARRAY and DELTA_BYTE_ARRAY pages that hold given byte
//! arrays, and the proof that reading them gives the byte arrays back. Of
//! the many DELTA_BYTE_ARRAY pages that hold the same byte arrays, the one
//! without shared prefixes is taken.
use crate::basic::{Datum, Type};
use crate::encodings::delta::{length_open, prefix_open, LengthCursor, PrefixCursor};
use crate::encodings::delta_page::{delta_image, lemma_delta_round_trip};
use crate::encodings::stream::{run, Cursor, Run, Step};
use crate::errors::ParquetError;
use crate::util::bit_util::{concat, lemma_concat_part};
use vstd::prelude::*;

verus! {

/// The byte arrays as the parts of a concatenation.
pub open spec fn parts(values: Seq<Seq<u8>>) -> spec_fn(int) -> Seq<u8> {
    |i: int| values[i]
}

/// The bytes of the byte arrays, one after the other.
pub open spec fn flat(values: Seq<Seq<u8>>) -> Seq<u8> {
    concat(values.len(), parts(values))
}

/// The lengths of the byte arrays.
pub open spec fn lengths_of(values: Seq<Seq<u8>>) -> Seq<i64> {
    Seq::new(values.len(), |i: int| values[i].len() as i64)
}

/// The byte arrays as values.
pub open spec fn byte_arrays(values: Seq<Seq<u8>>) -> Seq<Datum> {
    Seq::new(values.len(), |i: int| Datum::Bytes(values[i]))
}

/// The DELTA_LENGTH_BYTE_ARRAY page that holds `values`: the page of their
/// lengths, then their bytes.
pub open spec fn length_image(values: Seq<Seq<u8>>) -> Seq<u8> {
    delta_image(lengths_of(values)) + flat(values)
}

/// The cursor behind the first `k` byte arrays.
pub open spec fn after_byte_arrays(values: Seq<Seq<u8>>, k: nat) -> LengthCursor {
    LengthCursor {
        ty: Type::BYTE_ARRAY,
        lengths: lengths_of(values),
        data: flat(values),
        idx: k,
        offset: concat(k, parts(values)).len(),
    }
}

/// Reading byte array `k` from behind the first `k` byte arrays gives it.
pub proof fn lemma_step_after_byte_arrays(values: Seq<Seq<u8>>, k: nat)
    requires
        k < values.len(),
        values[k as int].len() <= i64::MAX,
    ensures
        after_byte_arrays(values, k).step() == Step::Yield(
            Datum::Bytes(values[k as int]),
            after_byte_arrays(values, (k + 1) as nat),
        ),
{
    lemma_concat_part(values.len(), parts(values), k);
    assert(parts(values)(k as int) == values[k as int]);
}

/// Reading the first `k` byte arrays gives them.
pub proof fn lemma_byte_arrays_round_trip_prefix(values: Seq<Seq<u8>>, k: nat)
    requires
        k <= values.len(),
        forall|i: int| 0 <= i < values.len() ==> (#[trigger] values[i]).len() <= i64::MAX,
    ensures
        run(after_byte_arrays(values, 0), k) == (Run {
            values: byte_arrays(values).take(k as int),
            state: after_byte_arrays(values, k),
            failure: None,
        }),
    decreases k,
{
    if k == 0 {
        assert(byte_arrays(values).take(0) =~= Seq::<Datum>::empty());
    } else {
        let j = (k - 1) as nat;
        lemma_byte_arrays_round_trip_prefix(values, j);
        assert(values[j as int].len() <= i64::MAX);
        lemma_step_after_byte_arrays(values, j);
        let before = run(after_byte_arrays(values, 0), j);
        let expected = before.state.step();
        assert(byte_arrays(values).take(k as int) =~= byte_arrays(values).take(j as int).push(
            Datum::Bytes(values[j as int]),
        ));
    }
}

/// The DELTA_LENGTH_BYTE_ARRAY page of `values` binds to the cursor before
/// the first byte array.
pub proof fn lemma_length_open_image(values: Seq<Seq<u8>>, limit: nat)
    requires
        values.len() <= limit,
        values.len() <= u64::MAX,
    ensures
        length_open(Type::BYTE_ARRAY, length_image(values), limit) == Ok::<
            (LengthCursor, nat),
            ParquetError,
        >((after_byte_arrays(values, 0), values.len())),
{
    let lengths = lengths_of(values);
    lemma_delta_round_trip(lengths, flat(values), limit);
    assert(length_image(values).skip(delta_image(lengths).len() as int) =~= flat(values));
}

/// Reading the DELTA_LENGTH_BYTE_ARRAY page of `values` gives `values`
/// back.
pub proof fn lemma_length_round_trip(values: Seq<Seq<u8>>, limit: nat)
    requires
        values.len() <= limit,
        values.len() <= u64::MAX,
        forall|i: int| 0 <= i < values.len() ==> (#[trigger] values[i]).len() <= i64::MAX,
    ensures
        length_open(Type::BYTE_ARRAY, length_image(values), limit) matches Ok((first, count))
            && count == values.len() && run(first, count).failure is None && run(
            first,
            count,
        ).values == byte_arrays(values),
{
    lemma_length_open_image(values, limit);
    lemma_byte_arrays_round_trip_prefix(values, values.len());
    assert(byte_arrays(values).take(values.len() as int) =~= byte_arrays(values));
}

/// As many zeros as there are byte arrays.
pub open spec fn no_prefixes(values: Seq<Seq<u8>>) -> Seq<i64> {
    Seq::new(values.len(), |i: int| 0i64)
}

/// The DELTA_BYTE_ARRAY page that holds `values`: a page of prefix lengths
/// that are all zero, then the DELTA_LENGTH_BYTE_ARRAY page of `values`.
pub open spec fn prefix_image(values: Seq<Seq<u8>>) -> Seq<u8> {
    delta_image(no_prefixes(values)) + length_image(values)
}

/// The cursor behind the first `k` byte arrays.
pub open spec fn after_suffixes(values: Seq<Seq<u8>>, k: nat) -> PrefixCursor {
    PrefixCursor {
        ty: Type::BYTE_ARRAY,
        prefix_lengths: no_prefixes(values),
        idx: k,
        suffixes: after_byte_arrays(values, k),
        previous: if k == 0 {
            Seq::empty()
        } else {
            values[k - 1]
        },
    }
}

/// Reading the first `k` byte arrays gives them.
pub proof fn lemma_suffixes_round_trip_prefix(values: Seq<Seq<u8>>, k: nat)
    requires
        k <= values.len(),
        forall|i: int| 0 <= i < values.len() ==> (#[trigger] values[i]).len() <= i64::MAX,
    ensures
        run(after_suffixes(values, 0), k) == (Run {
            values: byte_arrays(values).take(k as int),
            state: after_suffixes(values, k),
            failure: None,
        }),
    decreases k,
{
    if k == 0 {
        assert(byte_arrays(values).take(0) =~= Seq::<Datum>::empty());
    } else {
        let j = (k - 1) as nat;
        lemma_suffixes_round_trip_prefix(values, j);
        assert(values[j as int].len() <= i64::MAX);
        lemma_step_after_byte_arrays(values, j);
        let before = run(after_suffixes(values, 0), j);
        let expected = before.state.step();
        assert(before.state.previous.take(0) + values[j as int] =~= values[j as int]);
        assert(byte_arrays(values).take(k as int) =~= byte_arrays(values).take(j as int).push(
            Datum::Bytes(values[j as int]),
        ));
    }
}

/// Reading the DELTA_BYTE_ARRAY page of `values` gives `values` back.
pub proof fn lemma_prefix_round_trip(values: Seq<Seq<u8>>, limit: nat)
    requires
        values.len() <= limit,
        values.len() <= u64::MAX,
        forall|i: int| 0 <= i < values.len() ==> (#[trigger] values[i]).len() <= i64::MAX,
    ensures
        prefix_open(Type::BYTE_ARRAY, prefix_image(values), limit) matches Ok((first, count))
            && count == values.len() && run(first, count).failure is None && run(
            first,
            count,
        ).values == byte_arrays(values),
{
    let zeros = no_prefixes(values);
    lemma_delta_round_trip(zeros, length_image(values), limit);
    assert(prefix_image(values).skip(delta_image(zeros).len() as int) =~= length_image(values));
    lemma_length_open_image(values, limit);
    lemma_suffixes_round_trip_prefix(values, values.len());
    assert(byte_arrays(values).take(values.len() as int) =~= byte_arrays(values));
}

} // verus!
