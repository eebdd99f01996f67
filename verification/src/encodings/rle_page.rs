//! A page of runs that holds given values, and the proof that reading it
//! gives the values back. Of the many pages that hold the same values, the
//! one with a run of its own for every value is taken.
use crate::basic::{DataType, Datum, Int32Type, Type};
use crate::encodings::decoding::{Decoder, DictDecoder, RleDecoder, RLE_PREFIX_BYTES};
use crate::encodings::rle_encoding::{DictCursor, LevelCursor, RleCursor, MAX_BIT_WIDTH};
use crate::encodings::stream::{run, Cursor, Run};
use crate::errors::ParquetError;
use crate::util::bit_util::{
    bits_i32, byte_ceil, concat, le_bytes, lemma_concat_part, lemma_le_bytes_len,
    lemma_le_value_of_le_bytes, vlq_parse,
};
use vstd::arithmetic::power2::*;
use vstd::prelude::*;

verus! {

/// A run that repeats `v` once: the header 2, then `v` in as many bytes as
/// hold `bit_width` bits.
pub open spec fn single_run(v: nat, bit_width: nat) -> Seq<u8> {
    seq![2u8] + le_bytes(v, (bit_width + 7) / 8)
}

/// The run of each of `values`.
pub open spec fn run_images(values: Seq<nat>, bit_width: nat) -> spec_fn(int) -> Seq<u8> {
    |i: int| single_run(values[i], bit_width)
}

/// The runs that hold `values`, one run for each value.
pub open spec fn runs(values: Seq<nat>, bit_width: nat) -> Seq<u8> {
    concat(values.len(), run_images(values, bit_width))
}

/// The cursor behind the first `k` runs.
pub open spec fn after_runs(values: Seq<nat>, bit_width: nat, k: nat) -> RleCursor {
    RleCursor {
        bytes: runs(values, bit_width),
        bit_width,
        pos: 8 * concat(k, run_images(values, bit_width)).len(),
        rle_left: 0,
        packed_left: 0,
        current: if k == 0 {
            0
        } else {
            values[k - 1] as u64
        },
    }
}

/// Reading run `k` gives value `k`.
pub proof fn lemma_advance_after_runs(values: Seq<nat>, bit_width: nat, k: nat)
    requires
        bit_width <= MAX_BIT_WIDTH,
        k < values.len(),
        values[k as int] < pow2(bit_width),
    ensures
        after_runs(values, bit_width, k).advance() == Ok::<(u64, RleCursor), ParquetError>(
            (values[k as int] as u64, after_runs(values, bit_width, (k + 1) as nat)),
        ),
        values[k as int] <= u32::MAX,
{
    let c = after_runs(values, bit_width, k);
    let part = run_images(values, bit_width);
    let v = values[k as int];
    let count = c.value_bytes();
    let at = concat(k, part).len() as int;
    lemma2_to64();
    lemma_concat_part(values.len(), part, k);
    lemma_le_bytes_len(v, count);
    assert(part(k as int) == single_run(v, bit_width));
    let image = single_run(v, bit_width);
    assert(image.len() == 1 + count);
    assert(c.bytes.subrange(at, at + 1 + count) == image);
    assert(c.bytes[at] == c.bytes.subrange(at, at + 1 + count)[0]);
    assert(c.bytes[at] == 2);
    assert(vlq_parse(c.bytes, at, 10) == Some((2nat, 1nat)));
    assert(byte_ceil(c.pos) == at);
    assert(c.bytes.subrange(at + 1, at + 1 + count) =~= le_bytes(v, count)) by {
        assert forall|i: int| 0 <= i < count implies c.bytes.subrange(at + 1, at + 1 + count)[i]
            == le_bytes(v, count)[i] by {
            assert(c.bytes.subrange(at, at + 1 + count)[i + 1] == image[i + 1]);
        }
    }
    if bit_width < 8 * count {
        lemma_pow2_strictly_increases(bit_width, 8 * count);
    }
    if bit_width < 32 {
        lemma_pow2_strictly_increases(bit_width, 32);
    }
    lemma_le_value_of_le_bytes(c.bytes, at + 1, v, count);
    let loaded = RleCursor { pos: (8 * (at + 1 + count)) as nat, rle_left: 1, current: v as u64, ..c };
    assert(c.reload() == Ok::<RleCursor, ParquetError>(loaded));
    assert(loaded.advance() == Ok::<(u64, RleCursor), ParquetError>(
        (v as u64, RleCursor { rle_left: 0, ..loaded }),
    ));
}

/// The two's complement representations of 32-bit integers.
pub open spec fn level_bits(levels: Seq<i32>) -> Seq<nat> {
    Seq::new(levels.len(), |i: int| bits_i32(levels[i]))
}

/// The 32-bit integers as values.
pub open spec fn int32s(levels: Seq<i32>) -> Seq<Datum> {
    Seq::new(levels.len(), |i: int| Datum::Int32(levels[i]))
}

/// The RLE page that holds `levels`: the number of bytes of the runs in
/// four bytes, then the runs.
pub open spec fn level_page(levels: Seq<i32>, bit_width: nat) -> Seq<u8> {
    le_bytes(runs(level_bits(levels), bit_width).len(), 4) + runs(level_bits(levels), bit_width)
}

/// Reading the first `k` levels from the runs of `levels` gives them.
pub proof fn lemma_levels_round_trip_prefix(levels: Seq<i32>, bit_width: nat, k: nat)
    requires
        bit_width <= MAX_BIT_WIDTH,
        forall|i: int| 0 <= i < levels.len() ==> bits_i32(#[trigger] levels[i]) < pow2(bit_width),
        k <= levels.len(),
    ensures
        run(
            LevelCursor {
                ty: Type::INT32,
                rle: RleCursor::start(runs(level_bits(levels), bit_width), bit_width),
            },
            k,
        ) == (Run {
            values: int32s(levels).take(k as int),
            state: LevelCursor {
                ty: Type::INT32,
                rle: after_runs(level_bits(levels), bit_width, k),
            },
            failure: None,
        }),
    decreases k,
{
    let values = level_bits(levels);
    let first = LevelCursor {
        ty: Type::INT32,
        rle: RleCursor::start(runs(values, bit_width), bit_width),
    };
    if k == 0 {
        assert(int32s(levels).take(0) =~= Seq::<Datum>::empty());
    } else {
        let j = (k - 1) as nat;
        lemma_levels_round_trip_prefix(levels, bit_width, j);
        let before = run(first, j);
        assert(bits_i32(levels[j as int]) < pow2(bit_width));
        lemma_advance_after_runs(values, bit_width, j);
        let expected = before.state.step();
        assert(int32s(levels).take(k as int) =~= int32s(levels).take(j as int).push(
            Datum::Int32(levels[j as int]),
        ));
    }
}

/// Reading the RLE page of `levels` with a decoder of the same bit width
/// gives `levels` back. Each level must fit in `bit_width` bits, and the
/// runs in a page.
pub proof fn lemma_levels_round_trip(
    decoder: RleDecoder<Int32Type>,
    levels: Seq<i32>,
    bit_width: nat,
)
    requires
        decoder.spec_bit_width() == bit_width,
        bit_width <= MAX_BIT_WIDTH,
        forall|i: int| 0 <= i < levels.len() ==> bits_i32(#[trigger] levels[i]) < pow2(bit_width),
        runs(level_bits(levels), bit_width).len() <= 0x7fff_ffff,
    ensures
        decoder.bind(level_page(levels, bit_width), levels.len()) matches Ok((first, count))
            && count == levels.len() && run(first, count).failure is None && run(
            first,
            count,
        ).values == int32s(levels),
{
    let body = runs(level_bits(levels), bit_width);
    let page = level_page(levels, bit_width);
    lemma2_to64();
    lemma_le_bytes_len(body.len(), 4);
    assert(page.subrange(0, 4) =~= le_bytes(body.len(), 4));
    lemma_le_value_of_le_bytes(page, 0, body.len(), 4);
    assert(page.skip(RLE_PREFIX_BYTES as int) =~= body);
    lemma_levels_round_trip_prefix(levels, bit_width, levels.len());
    assert(int32s(levels).take(levels.len() as int) =~= int32s(levels));
}

/// The entries of `dict` at `indices`.
pub open spec fn lookups(dict: Seq<Datum>, indices: Seq<nat>) -> Seq<Datum> {
    Seq::new(indices.len(), |i: int| dict[indices[i] as int])
}

/// The page of a dictionary-encoded column that holds `indices`: the bit
/// width of the indices in one byte, then the runs.
pub open spec fn index_page(indices: Seq<nat>, bit_width: nat) -> Seq<u8> {
    seq![bit_width as u8] + runs(indices, bit_width)
}

/// Reading the first `k` values from the runs of `indices` gives the
/// entries of the dictionary at the first `k` indices.
pub proof fn lemma_dict_round_trip_prefix(
    dict: Seq<Datum>,
    indices: Seq<nat>,
    bit_width: nat,
    k: nat,
)
    requires
        bit_width <= MAX_BIT_WIDTH,
        forall|i: int|
            0 <= i < indices.len() ==> #[trigger] indices[i] < pow2(bit_width) && indices[i]
                < dict.len(),
        k <= indices.len(),
    ensures
        run(DictCursor { dict, rle: RleCursor::start(runs(indices, bit_width), bit_width) }, k)
            == (Run {
            values: lookups(dict, indices).take(k as int),
            state: DictCursor { dict, rle: after_runs(indices, bit_width, k) },
            failure: None,
        }),
    decreases k,
{
    let first = DictCursor { dict, rle: RleCursor::start(runs(indices, bit_width), bit_width) };
    if k == 0 {
        assert(lookups(dict, indices).take(0) =~= Seq::<Datum>::empty());
    } else {
        let j = (k - 1) as nat;
        lemma_dict_round_trip_prefix(dict, indices, bit_width, j);
        let before = run(first, j);
        assert(indices[j as int] < pow2(bit_width));
        lemma_advance_after_runs(indices, bit_width, j);
        let expected = before.state.step();
        assert(lookups(dict, indices).take(k as int) =~= lookups(dict, indices).take(
            j as int,
        ).push(dict[indices[j as int] as int]));
    }
}

/// Reading the page of `indices` with a decoder that holds a dictionary
/// gives the entries of the dictionary at `indices`. Each index must fit in
/// `bit_width` bits and lie within the dictionary.
pub proof fn lemma_dict_round_trip<T: DataType>(
    decoder: DictDecoder<T>,
    indices: Seq<nat>,
    bit_width: nat,
)
    requires
        bit_width <= MAX_BIT_WIDTH,
        forall|i: int|
            0 <= i < indices.len() ==> #[trigger] indices[i] < pow2(bit_width) && indices[i]
                < decoder.entries().len(),
    ensures
        decoder.bind(index_page(indices, bit_width), indices.len()) matches Ok((first, count))
            && count == indices.len() && run(first, count).failure is None && run(
            first,
            count,
        ).values == lookups(decoder.entries(), indices),
{
    let page = index_page(indices, bit_width);
    assert(page.skip(1) =~= runs(indices, bit_width));
    assert(page[0] == bit_width);
    lemma_dict_round_trip_prefix(decoder.entries(), indices, bit_width, indices.len());
    assert(lookups(decoder.entries(), indices).take(indices.len() as int) =~= lookups(
        decoder.entries(),
        indices,
    ));
}

} // verus!
