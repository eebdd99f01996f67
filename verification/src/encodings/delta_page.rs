//! A DELTA_BINARY_PACKED page that holds given values, and the proof that
//! reading it gives the values back. Of the many pages that hold the same
//! values, the one with blocks of one mini-block of eight differences of 64
//! bits each is taken; its last mini-block ends with the last difference.
use crate::basic::{Datum, Type};
use crate::encodings::delta::{delta_open, delta_page, int64s, wrap_i64, DeltaCursor};
use crate::encodings::stream::{run, Cursor, Run, Step};
use crate::errors::ParquetError;
use crate::util::bit_util::{
    bits_value, byte_ceil, concat, le_bytes, le_value, lemma_concat_part, lemma_le_bytes_len,
    lemma_le_value_of_le_bytes, lemma_vlq_round_trip, lemma_zigzag_round_trip, unzigzag, vlq_at,
    vlq_bytes, vlq_parse,
};
use vstd::arithmetic::power2::*;
use vstd::prelude::*;

verus! {

/// A byte is the sum of its bits.
proof fn lemma_byte_is_sum_of_bits(b: u8)
    by (bit_vector)
    ensures
        b == ((b >> 0u8) & 1) + 2 * ((b >> 1u8) & 1) + 4 * ((b >> 2u8) & 1) + 8 * ((b >> 3u8) & 1)
            + 16 * ((b >> 4u8) & 1) + 32 * ((b >> 5u8) & 1) + 64 * ((b >> 6u8) & 1) + 128 * ((b
            >> 7u8) & 1),
        (b >> 0u8) & 1 <= 1,
        (b >> 1u8) & 1 <= 1,
        (b >> 2u8) & 1 <= 1,
        (b >> 3u8) & 1 <= 1,
        (b >> 4u8) & 1 <= 1,
        (b >> 5u8) & 1 <= 1,
        (b >> 6u8) & 1 <= 1,
        (b >> 7u8) & 1 <= 1,
{
}

/// The eight bits from a byte boundary on are the byte.
pub proof fn lemma_bits_of_byte(bytes: Seq<u8>, q: int)
    requires
        0 <= q,
    ensures
        bits_value(bytes, 8 * q, 8) == bytes[q],
{
    reveal_with_fuel(bits_value, 9);
    lemma_byte_is_sum_of_bits(bytes[q]);
    assert((8 * q + 0) / 8 == q && (8 * q + 0) % 8 == 0);
    assert((8 * q + 1) / 8 == q && (8 * q + 1) % 8 == 1);
    assert((8 * q + 2) / 8 == q && (8 * q + 2) % 8 == 2);
    assert((8 * q + 3) / 8 == q && (8 * q + 3) % 8 == 3);
    assert((8 * q + 4) / 8 == q && (8 * q + 4) % 8 == 4);
    assert((8 * q + 5) / 8 == q && (8 * q + 5) % 8 == 5);
    assert((8 * q + 6) / 8 == q && (8 * q + 6) % 8 == 6);
    assert((8 * q + 7) / 8 == q && (8 * q + 7) % 8 == 7);
}

/// An integer of `a + b` bits is its low `a` bits plus `2^a` times its
/// high `b` bits.
pub proof fn lemma_bits_value_split(bytes: Seq<u8>, pos: int, a: nat, b: nat)
    ensures
        bits_value(bytes, pos, a + b) == bits_value(bytes, pos, a) + pow2(a) * bits_value(
            bytes,
            pos + a,
            b,
        ),
    decreases a,
{
    lemma2_to64();
    if a > 0 {
        lemma_bits_value_split(bytes, pos + 1, (a - 1) as nat, b);
        lemma_pow2_unfold(a);
        let high = bits_value(bytes, pos + a, b);
        assert(2 * (pow2((a - 1) as nat) * high) == pow2(a) * high) by (nonlinear_arith)
            requires
                pow2(a) == 2 * pow2((a - 1) as nat),
        ;
    } else {
        assert(pow2(0) * bits_value(bytes, pos, b) == bits_value(bytes, pos, b))
            by (nonlinear_arith)
            requires
                pow2(0) == 1,
        ;
    }
}

/// From a byte boundary on, the integer of `8 * count` bits is the integer
/// of `count` bytes.
pub proof fn lemma_bits_value_aligned(bytes: Seq<u8>, q: int, count: nat)
    requires
        0 <= q,
    ensures
        bits_value(bytes, 8 * q, 8 * count) == le_value(bytes, q, count),
    decreases count,
{
    lemma2_to64();
    if count > 0 {
        lemma_bits_value_aligned(bytes, q + 1, (count - 1) as nat);
        lemma_bits_value_split(bytes, 8 * q, 8, (8 * (count - 1)) as nat);
        lemma_bits_of_byte(bytes, q);
        assert(8 * q + 8 == 8 * (q + 1));
        assert(8 + (8 * (count - 1)) as nat == 8 * count);
    }
}

/// The difference between two values, as the 64 bits that are stored.
pub open spec fn delta_bits(previous: i64, next: i64) -> nat {
    ((next - previous) % 0x1_0000_0000_0000_0000) as nat
}

/// Adding the stored difference to the value before gives the value.
pub proof fn lemma_wrap_difference(previous: i64, next: i64)
    ensures
        wrap_i64(previous + 0 + delta_bits(previous, next)) == next,
        delta_bits(previous, next) < 0x1_0000_0000_0000_0000,
{
    let m = 0x1_0000_0000_0000_0000int;
    let d = (next - previous) % m;
    assert(0 <= d < m);
    assert((previous + d) % m == (next as int) % m) by {
        let q = (next - previous) / m;
        assert(next - previous == q * m + d) by (nonlinear_arith)
            requires
                q == (next - previous) / m,
                d == (next - previous) % m,
                m == 0x1_0000_0000_0000_0000int,
        ;
        assert(previous + d == next - q * m);
        assert((next - q * m) % m == (next as int) % m) by (nonlinear_arith)
            requires
                m == 0x1_0000_0000_0000_0000int,
        ;
    }
}

/// The bytes of difference `e`: each eighth difference starts a block with
/// a least difference of zero and a bit width of 64.
pub open spec fn delta_pieces(values: Seq<i64>) -> spec_fn(int) -> Seq<u8> {
    |e: int|
        (if e % 8 == 0 {
            seq![0u8, 64u8]
        } else {
            Seq::<u8>::empty()
        }) + le_bytes(delta_bits(values[e], values[e + 1]), 8)
}

/// The first value of a page: zero for the page without values.
pub open spec fn first_of(values: Seq<i64>) -> i64 {
    if values.len() == 0 {
        0
    } else {
        values[0]
    }
}

/// The header of the page: blocks of 8 differences in 1 mini-block, the
/// number of values, the first value.
pub open spec fn delta_header(values: Seq<i64>) -> Seq<u8> {
    seq![8u8, 1u8] + vlq_bytes(values.len()) + vlq_bytes(unzigzag(first_of(values)) as nat)
}

/// The number of differences between `values`.
pub open spec fn delta_count(values: Seq<i64>) -> nat {
    if values.len() == 0 {
        0
    } else {
        (values.len() - 1) as nat
    }
}

/// The DELTA_BINARY_PACKED page that holds `values`.
pub open spec fn delta_image(values: Seq<i64>) -> Seq<u8> {
    delta_header(values) + concat(delta_count(values), delta_pieces(values))
}

/// The cursor behind the first `k` values in the page of `values`, which
/// `tail` follows.
pub open spec fn after_values(values: Seq<i64>, tail: Seq<u8>, k: nat) -> DeltaCursor {
    DeltaCursor {
        ty: Type::INT64,
        bytes: delta_image(values) + tail,
        pos: 8 * (delta_header(values).len() + concat(
            if k == 0 {
                0
            } else {
                (k - 1) as nat
            },
            delta_pieces(values),
        ).len()),
        num_mini_blocks: 1,
        values_per_mini_block: 8,
        first_value: first_of(values),
        first_read: k >= 1,
        min_delta: 0,
        widths: if k <= 1 {
            Seq::empty()
        } else {
            seq![64u8]
        },
        mini_idx: 0,
        mini_left: if k <= 1 {
            0
        } else {
            (7 - (k - 2) % 8) as nat
        },
        current: if k == 0 {
            0
        } else {
            values[k - 1]
        },
    }
}

/// The header of the page of `values` reads as the cursor before the first
/// value and the number of values.
pub proof fn lemma_delta_open_image(values: Seq<i64>, tail: Seq<u8>, limit: nat)
    requires
        values.len() <= limit,
        values.len() <= u64::MAX,
    ensures
        delta_open(Type::INT64, delta_image(values) + tail, limit) == Ok::<
            (DeltaCursor, nat),
            ParquetError,
        >((after_values(values, tail, 0), values.len())),
{
    let page = delta_image(values) + tail;
    let count = vlq_bytes(values.len());
    let first = vlq_bytes(unzigzag(first_of(values)) as nat);
    let header = delta_header(values);
    let n1 = count.len() as int;
    let n2 = first.len() as int;
    lemma_zigzag_round_trip(first_of(values));
    assert forall|i: int| 0 <= i < header.len() implies page[i] == header[i] by {
        assert(delta_image(values)[i] == header[i]);
    }
    assert(header[0] == 8 && header[1] == 1);
    assert(page[0] == 8 && page[1] == 1);
    assert(vlq_parse(page, 0, 10) == Some((8nat, 1nat)));
    assert(vlq_parse(page, 1, 10) == Some((1nat, 1nat)));
    assert(page.subrange(2, 2 + n1) =~= count) by {
        assert forall|i: int| 0 <= i < n1 implies page.subrange(2, 2 + n1)[i] == count[i] by {
            assert(header[2 + i] == count[i]);
        }
    }
    lemma_vlq_round_trip(page, 2, values.len() as u64);
    assert(page.subrange(2 + n1, 2 + n1 + n2) =~= first) by {
        assert forall|i: int| 0 <= i < n2 implies page.subrange(2 + n1, 2 + n1 + n2)[i]
            == first[i] by {
            assert(header[2 + n1 + i] == first[i]);
        }
    }
    lemma_vlq_round_trip(page, 2 + n1, unzigzag(first_of(values)));
    assert(header.len() == 2 + n1 + n2);
    assert(concat(0, delta_pieces(values)).len() == 0);
    assert(vlq_at(page, 0) == Ok::<(u64, nat), ParquetError>((8u64, 1nat)));
    assert(vlq_at(page, 1) == Ok::<(u64, nat), ParquetError>((1u64, 1nat)));
    assert(vlq_at(page, 2) == Ok::<(u64, nat), ParquetError>((values.len() as u64, n1 as nat)));
    assert(vlq_at(page, 2 + n1) == Ok::<(u64, nat), ParquetError>(
        (unzigzag(first_of(values)), n2 as nat),
    ));
    assert(after_values(values, tail, 0).pos == 8 * (2 + n1 + n2));
    assert(after_values(values, tail, 0).widths =~= Seq::<u8>::empty());
}

/// Where the bytes of difference `e` lie in the page.
pub open spec fn piece_start(values: Seq<i64>, e: nat) -> int {
    (delta_header(values).len() + concat(e, delta_pieces(values)).len()) as int
}

/// The bytes of difference `e` lie behind the header and the differences
/// before it.
pub proof fn lemma_piece_in_page(values: Seq<i64>, tail: Seq<u8>, e: nat)
    requires
        e < delta_count(values),
    ensures
        piece_start(values, e + 1) == piece_start(values, e) + delta_pieces(values)(
            e as int,
        ).len(),
        piece_start(values, e + 1) <= (delta_image(values) + tail).len(),
        (delta_image(values) + tail).subrange(
            piece_start(values, e),
            piece_start(values, e + 1),
        ) == delta_pieces(values)(e as int),
{
    let pieces = delta_pieces(values);
    let page = delta_image(values) + tail;
    let header = delta_header(values);
    let body = concat(delta_count(values), pieces);
    let from = concat(e, pieces).len() as int;
    let to = concat(e + 1, pieces).len() as int;
    lemma_concat_part(delta_count(values), pieces, e);
    let piece = pieces(e as int);
    assert(page.subrange(header.len() + from, header.len() + to) =~= piece) by {
        assert forall|i: int| 0 <= i < piece.len() implies page.subrange(
            header.len() + from,
            header.len() + to,
        )[i] == piece[i] by {
            assert(body.subrange(from, to)[i] == body[from + i]);
            assert(delta_image(values)[header.len() + from + i] == body[from + i]);
        }
    }
}

/// The eight bytes of a difference, read as 64 bits.
pub proof fn lemma_read_difference(page: Seq<u8>, at: int, bits: nat)
    requires
        0 <= at,
        at + 8 <= page.len(),
        page.subrange(at, at + 8) == le_bytes(bits, 8),
        bits < 0x1_0000_0000_0000_0000,
    ensures
        bits_value(page, 8 * at, 64) == bits,
{
    lemma2_to64();
    lemma_le_value_of_le_bytes(page, at, bits, 8);
    lemma_bits_value_aligned(page, at, 8);
}

/// Reading the first difference of a block, behind the header of the block.
pub proof fn lemma_step_into_block(values: Seq<i64>, tail: Seq<u8>, k: nat)
    requires
        1 <= k < values.len(),
        (k - 1) % 8 == 0,
    ensures
        after_values(values, tail, k).step() == Step::Yield(
            Datum::Int64(values[k as int]),
            after_values(values, tail, (k + 1) as nat),
        ),
{
    let c = after_values(values, tail, k);
    let e = (k - 1) as nat;
    let page = delta_image(values) + tail;
    let at = piece_start(values, e);
    let bits = delta_bits(values[e as int], values[e as int + 1]);
    let piece = delta_pieces(values)(e as int);
    lemma_piece_in_page(values, tail, e);
    lemma_le_bytes_len(bits, 8);
    lemma_wrap_difference(values[e as int], values[e as int + 1]);
    assert(piece == seq![0u8, 64u8] + le_bytes(bits, 8));
    assert(piece.len() == 10);
    assert(page[at] == page.subrange(at, at + 10)[0]);
    assert(page[at + 1] == page.subrange(at, at + 10)[1]);
    assert(page[at] == 0 && page[at + 1] == 64);
    assert(page.subrange(at + 2, at + 10) =~= le_bytes(bits, 8)) by {
        assert forall|i: int| 0 <= i < 8 implies page.subrange(at + 2, at + 10)[i] == le_bytes(
            bits,
            8,
        )[i] by {
            assert(page.subrange(at, at + 10)[2 + i] == piece[2 + i]);
        }
    }
    lemma_read_difference(page, at + 2, bits);
    assert(byte_ceil(c.pos) == at);
    assert(vlq_parse(page, at, 10) == Some((0nat, 1nat)));
    assert(page.subrange(at + 1, at + 2) =~= seq![64u8]);
    let entered = DeltaCursor {
        pos: (8 * (at + 2)) as nat,
        min_delta: 0,
        widths: seq![64u8],
        mini_idx: 0,
        mini_left: 8,
        ..c
    };
    assert(c.init_block() == Ok::<DeltaCursor, ParquetError>(entered));
    assert(c.enter_mini_block() == Ok::<DeltaCursor, ParquetError>(entered));
    let next = c.next_delta();
}

/// Reading a later difference of a block.
pub proof fn lemma_step_within_block(values: Seq<i64>, tail: Seq<u8>, k: nat)
    requires
        1 <= k < values.len(),
        (k - 1) % 8 != 0,
    ensures
        after_values(values, tail, k).step() == Step::Yield(
            Datum::Int64(values[k as int]),
            after_values(values, tail, (k + 1) as nat),
        ),
{
    let c = after_values(values, tail, k);
    let e = (k - 1) as nat;
    let page = delta_image(values) + tail;
    let at = piece_start(values, e);
    let bits = delta_bits(values[e as int], values[e as int + 1]);
    let piece = delta_pieces(values)(e as int);
    lemma_piece_in_page(values, tail, e);
    lemma_le_bytes_len(bits, 8);
    lemma_wrap_difference(values[e as int], values[e as int + 1]);
    assert(piece =~= le_bytes(bits, 8));
    lemma_read_difference(page, at, bits);
    assert(c.enter_mini_block() == Ok::<DeltaCursor, ParquetError>(c));
    let next = c.next_delta();
}

/// Reading value `k` from behind the first `k` values gives it.
pub proof fn lemma_step_after_values(values: Seq<i64>, tail: Seq<u8>, k: nat)
    requires
        k < values.len(),
    ensures
        after_values(values, tail, k).step() == Step::Yield(
            Datum::Int64(values[k as int]),
            after_values(values, tail, (k + 1) as nat),
        ),
{
    if k >= 1 {
        if (k - 1) % 8 == 0 {
            lemma_step_into_block(values, tail, k);
        } else {
            lemma_step_within_block(values, tail, k);
        }
    }
}

/// Reading the first `k` values of the page of `values` gives them.
pub proof fn lemma_delta_round_trip_prefix(values: Seq<i64>, tail: Seq<u8>, k: nat)
    requires
        k <= values.len(),
    ensures
        run(after_values(values, tail, 0), k) == (Run {
            values: Seq::new(k, |i: int| Datum::Int64(values[i])),
            state: after_values(values, tail, k),
            failure: None,
        }),
    decreases k,
{
    if k == 0 {
        assert(Seq::new(0, |i: int| Datum::Int64(values[i])) =~= Seq::<Datum>::empty());
    } else {
        let j = (k - 1) as nat;
        lemma_delta_round_trip_prefix(values, tail, j);
        lemma_step_after_values(values, tail, j);
        let before = run(after_values(values, tail, 0), j);
        let expected = before.state.step();
        assert(Seq::new(k, |i: int| Datum::Int64(values[i])) =~= Seq::new(
            j,
            |i: int| Datum::Int64(values[i]),
        ).push(Datum::Int64(values[j as int])));
    }
}

/// Reading the DELTA_BINARY_PACKED page of `values` gives `values` back
/// and ends with the last byte of the page, whatever follows the page.
pub proof fn lemma_delta_round_trip(values: Seq<i64>, tail: Seq<u8>, limit: nat)
    requires
        values.len() <= limit,
        values.len() <= u64::MAX,
    ensures
        delta_page(delta_image(values) + tail, limit) == Ok::<(Seq<i64>, nat), ParquetError>(
            (values, delta_image(values).len()),
        ),
{
    lemma_delta_open_image(values, tail, limit);
    lemma_delta_round_trip_prefix(values, tail, values.len());
    let out = run(after_values(values, tail, 0), values.len());
    assert(int64s(out.values) =~= values);
}

} // verus!
