//! The PLAIN page that holds given values, and the proof that reading it
//! gives the values back.
use crate::basic::{Datum, Type};
use crate::encodings::plain::PlainCursor;
use crate::encodings::stream::{run, Cursor, Run, Step};
use crate::util::bit_util::{
    bit_at, bits_i32, bits_i64, byte_ceil, le_bytes, lemma_le_bytes_len,
    lemma_le_value_of_le_bytes,
};
use vstd::arithmetic::power2::*;
use vstd::prelude::*;

verus! {

/// Whether a PLAIN page of a column of type `ty` can hold `d`: it has the
/// shape of the type, a byte array has a length that fits in 32 bits, and a
/// fixed-length byte array has the length of the column.
pub open spec fn storable(ty: Type, type_length: int, d: Datum) -> bool {
    &&& d.fits(ty)
    &&& d matches Datum::Bytes(s) ==> {
        &&& ty == Type::BYTE_ARRAY ==> s.len() < 0x1_0000_0000
        &&& ty == Type::FIXED_LEN_BYTE_ARRAY ==> type_length > 0 && s.len() == type_length
    }
}

/// The bytes of one value in a PLAIN page; BOOLEAN values share bytes and
/// are laid out by `bool_page`.
pub open spec fn value_image(ty: Type, d: Datum) -> Seq<u8> {
    match d {
        Datum::Bool(_) => Seq::empty(),
        Datum::Int32(v) => le_bytes(bits_i32(v), 4),
        Datum::Int64(v) => le_bytes(bits_i64(v), 8),
        Datum::Int96(a, b, c) => le_bytes(a as nat, 4) + le_bytes(b as nat, 4) + le_bytes(
            c as nat,
            4,
        ),
        Datum::Float(b) => le_bytes(b as nat, 4),
        Datum::Double(b) => le_bytes(b as nat, 8),
        Datum::Bytes(s) => if ty == Type::BYTE_ARRAY {
            le_bytes(s.len(), 4) + s
        } else {
            s
        },
    }
}

/// Bit `i` of a page of BOOLEAN values: set where value `i` is true.
pub open spec fn flag(values: Seq<Datum>, i: int) -> u8 {
    if 0 <= i < values.len() && values[i] == Datum::Bool(true) {
        1
    } else {
        0
    }
}

/// The byte of a page of BOOLEAN values that holds the values from index
/// `base` on, the first in its least significant bit.
pub open spec fn packed_byte(values: Seq<Datum>, base: int) -> u8 {
    flag(values, base) | (flag(values, base + 1) << 1u8) | (flag(values, base + 2) << 2u8) | (flag(
        values,
        base + 3,
    ) << 3u8) | (flag(values, base + 4) << 4u8) | (flag(values, base + 5) << 5u8) | (flag(
        values,
        base + 6,
    ) << 6u8) | (flag(values, base + 7) << 7u8)
}

/// The PLAIN page of BOOLEAN values: eight values per byte; the last byte
/// is filled up with zero bits.
pub open spec fn bool_page(values: Seq<Datum>) -> Seq<u8> {
    Seq::new(byte_ceil(values.len()), |j: int| packed_byte(values, 8 * j))
}

/// The bytes of the values of a type that is not BOOLEAN, one value after
/// the other.
pub open spec fn images(ty: Type, values: Seq<Datum>) -> Seq<u8>
    decreases values.len(),
{
    if values.len() == 0 {
        Seq::empty()
    } else {
        images(ty, values.drop_last()) + value_image(ty, values.last())
    }
}

/// The PLAIN page that holds `values`.
pub open spec fn plain_page(ty: Type, values: Seq<Datum>) -> Seq<u8> {
    if ty == Type::BOOLEAN {
        bool_page(values)
    } else {
        images(ty, values)
    }
}

/// The bytes of the first values are the first bytes of the page.
pub proof fn lemma_images_prefix(ty: Type, values: Seq<Datum>, k: nat)
    requires
        k <= values.len(),
    ensures
        images(ty, values.take(k as int)).len() <= images(ty, values).len(),
        images(ty, values).take(images(ty, values.take(k as int)).len() as int) == images(
            ty,
            values.take(k as int),
        ),
    decreases values.len(),
{
    if k == values.len() {
        assert(values.take(k as int) =~= values);
        assert(images(ty, values).take(images(ty, values).len() as int) =~= images(ty, values));
    } else {
        let front = values.drop_last();
        assert(front.take(k as int) =~= values.take(k as int));
        lemma_images_prefix(ty, front, k);
        let part = images(ty, values.take(k as int));
        assert(images(ty, values).take(part.len() as int) =~= images(ty, front).take(
            part.len() as int,
        ));
    }
}

/// Each bit of a packed byte is the flag that was put there.
proof fn lemma_packed_bits(b0: u8, b1: u8, b2: u8, b3: u8, b4: u8, b5: u8, b6: u8, b7: u8)
    by (bit_vector)
    requires
        b0 <= 1,
        b1 <= 1,
        b2 <= 1,
        b3 <= 1,
        b4 <= 1,
        b5 <= 1,
        b6 <= 1,
        b7 <= 1,
    ensures
        ({
            let v = b0 | (b1 << 1u8) | (b2 << 2u8) | (b3 << 3u8) | (b4 << 4u8) | (b5 << 5u8) | (b6
                << 6u8) | (b7 << 7u8);
            &&& (v >> 0u8) & 1 == b0
            &&& (v >> 1u8) & 1 == b1
            &&& (v >> 2u8) & 1 == b2
            &&& (v >> 3u8) & 1 == b3
            &&& (v >> 4u8) & 1 == b4
            &&& (v >> 5u8) & 1 == b5
            &&& (v >> 6u8) & 1 == b6
            &&& (v >> 7u8) & 1 == b7
        }),
{
}

/// Bit `i` of a page of BOOLEAN values is value `i`.
pub proof fn lemma_bool_page_bit(values: Seq<Datum>, i: int)
    requires
        0 <= i < values.len(),
    ensures
        i < 8 * bool_page(values).len(),
        bit_at(bool_page(values), i) == (values[i] == Datum::Bool(true)),
{
    let base = 8 * (i / 8);
    lemma_packed_bits(
        flag(values, base),
        flag(values, base + 1),
        flag(values, base + 2),
        flag(values, base + 3),
        flag(values, base + 4),
        flag(values, base + 5),
        flag(values, base + 6),
        flag(values, base + 7),
    );
    assert(bool_page(values)[i / 8] == packed_byte(values, base));
    assert(i == base + i % 8);
}

/// A part of a part of a sequence is a part of the sequence.
proof fn lemma_subrange_of_image(page: Seq<u8>, at: int, image: Seq<u8>, from: int, to: int)
    requires
        0 <= at,
        at + image.len() <= page.len(),
        page.subrange(at, at + image.len()) == image,
        0 <= from <= to <= image.len(),
    ensures
        page.subrange(at + from, at + to) == image.subrange(from, to),
{
    assert forall|i: int| 0 <= i < to - from implies page.subrange(at + from, at + to)[i]
        == image.subrange(from, to)[i] by {
        assert(page.subrange(at, at + image.len())[from + i] == page[at + from + i]);
    }
    assert(page.subrange(at + from, at + to) =~= image.subrange(from, to));
}

/// Reading the image of a number gives the number.
pub proof fn lemma_step_reads_number(c: PlainCursor, d: Datum)
    requires
        c.ty != Type::BOOLEAN,
        c.ty != Type::BYTE_ARRAY,
        c.ty != Type::FIXED_LEN_BYTE_ARRAY,
        c.ty != Type::INT96,
        storable(c.ty, c.type_length, d),
        c.pos + value_image(c.ty, d).len() <= c.bytes.len(),
        c.bytes.subrange(c.pos as int, c.pos as int + value_image(c.ty, d).len()) == value_image(
            c.ty,
            d,
        ),
    ensures
        c.step() == Step::Yield(d, c.moved(value_image(c.ty, d).len())),
{
    lemma2_to64();
    let at = c.pos as int;
    match d {
        Datum::Int32(v) => {
            lemma_le_bytes_len(bits_i32(v), 4);
            lemma_le_value_of_le_bytes(c.bytes, at, bits_i32(v), 4);
        },
        Datum::Int64(v) => {
            lemma_le_bytes_len(bits_i64(v), 8);
            lemma_le_value_of_le_bytes(c.bytes, at, bits_i64(v), 8);
        },
        Datum::Float(b) => {
            lemma_le_bytes_len(b as nat, 4);
            lemma_le_value_of_le_bytes(c.bytes, at, b as nat, 4);
        },
        Datum::Double(b) => {
            lemma_le_bytes_len(b as nat, 8);
            lemma_le_value_of_le_bytes(c.bytes, at, b as nat, 8);
        },
        _ => {},
    }
}

/// Reading the image of a 96-bit value gives the value.
pub proof fn lemma_step_reads_int96(c: PlainCursor, d: Datum)
    requires
        c.ty == Type::INT96,
        storable(c.ty, c.type_length, d),
        c.pos + value_image(c.ty, d).len() <= c.bytes.len(),
        c.bytes.subrange(c.pos as int, c.pos as int + value_image(c.ty, d).len()) == value_image(
            c.ty,
            d,
        ),
    ensures
        c.step() == Step::Yield(d, c.moved(value_image(c.ty, d).len())),
{
    lemma2_to64();
    let at = c.pos as int;
    let image = value_image(c.ty, d);
    match d {
        Datum::Int96(w0, w1, w2) => {
            let i0 = le_bytes(w0 as nat, 4);
            let i1 = le_bytes(w1 as nat, 4);
            let i2 = le_bytes(w2 as nat, 4);
            lemma_le_bytes_len(w0 as nat, 4);
            lemma_le_bytes_len(w1 as nat, 4);
            lemma_le_bytes_len(w2 as nat, 4);
            assert(image.subrange(0, 4) =~= i0);
            assert(image.subrange(4, 8) =~= i1);
            assert(image.subrange(8, 12) =~= i2);
            lemma_subrange_of_image(c.bytes, at, image, 0, 4);
            lemma_subrange_of_image(c.bytes, at, image, 4, 8);
            lemma_subrange_of_image(c.bytes, at, image, 8, 12);
            lemma_le_value_of_le_bytes(c.bytes, at, w0 as nat, 4);
            lemma_le_value_of_le_bytes(c.bytes, at + 4, w1 as nat, 4);
            lemma_le_value_of_le_bytes(c.bytes, at + 8, w2 as nat, 4);
        },
        _ => {},
    }
}

/// Reading the image of a byte array gives the byte array.
pub proof fn lemma_step_reads_bytes(c: PlainCursor, d: Datum)
    requires
        c.ty == Type::BYTE_ARRAY || c.ty == Type::FIXED_LEN_BYTE_ARRAY,
        storable(c.ty, c.type_length, d),
        c.pos + value_image(c.ty, d).len() <= c.bytes.len(),
        c.bytes.subrange(c.pos as int, c.pos as int + value_image(c.ty, d).len()) == value_image(
            c.ty,
            d,
        ),
    ensures
        c.step() == Step::Yield(d, c.moved(value_image(c.ty, d).len())),
{
    lemma2_to64();
    let at = c.pos as int;
    let image = value_image(c.ty, d);
    match d {
        Datum::Bytes(s) => {
            if c.ty == Type::BYTE_ARRAY {
                let head = le_bytes(s.len(), 4);
                lemma_le_bytes_len(s.len(), 4);
                assert(image.subrange(0, 4) =~= head);
                assert(image.subrange(4, 4 + s.len() as int) =~= s);
                lemma_subrange_of_image(c.bytes, at, image, 0, 4);
                lemma_subrange_of_image(c.bytes, at, image, 4, 4 + s.len() as int);
                lemma_le_value_of_le_bytes(c.bytes, at, s.len(), 4);
            } else {
                assert(c.bytes.subrange(at, at + c.type_length) =~= s);
            }
        },
        _ => {},
    }
}

/// Reading the first `k` values of the PLAIN page of `values` gives the
/// first `k` values and ends behind their bytes.
pub proof fn lemma_plain_round_trip_prefix(
    ty: Type,
    type_length: int,
    values: Seq<Datum>,
    k: nat,
)
    requires
        forall|i: int| 0 <= i < values.len() ==> storable(ty, type_length, #[trigger] values[i]),
        k <= values.len(),
    ensures
        run(PlainCursor::start(ty, type_length, plain_page(ty, values)), k) == (Run {
            values: values.take(k as int),
            state: PlainCursor {
                ty,
                type_length,
                bytes: plain_page(ty, values),
                pos: if ty == Type::BOOLEAN {
                    k
                } else {
                    images(ty, values.take(k as int)).len()
                },
            },
            failure: None,
        }),
    decreases k,
{
    let page = plain_page(ty, values);
    let first = PlainCursor::start(ty, type_length, page);
    if k == 0 {
        assert(values.take(0) =~= Seq::<Datum>::empty());
    } else {
        let j = (k - 1) as nat;
        lemma_plain_round_trip_prefix(ty, type_length, values, j);
        let before = run(first, j);
        let d = values[j as int];
        assert(storable(ty, type_length, d));
        assert(values.take(k as int) =~= values.take(j as int).push(d));
        if ty == Type::BOOLEAN {
            lemma_bool_page_bit(values, j as int);
            assert(before.state.step() == Step::Yield(d, before.state.moved(1)));
        } else {
            let head = images(ty, values.take(j as int));
            let image = value_image(ty, d);
            let at = head.len() as int;
            assert(values.take(k as int).drop_last() =~= values.take(j as int));
            assert(images(ty, values.take(k as int)) == head + image);
            lemma_images_prefix(ty, values, k);
            assert(page.subrange(at, at + image.len()) =~= image) by {
                assert forall|i: int| 0 <= i < image.len() implies page.subrange(
                    at,
                    at + image.len(),
                )[i] == image[i] by {
                    assert(page.take((head + image).len() as int)[at + i] == (head + image)[at
                        + i]);
                }
            }
            if ty == Type::INT96 {
                lemma_step_reads_int96(before.state, d);
            } else if ty == Type::BYTE_ARRAY || ty == Type::FIXED_LEN_BYTE_ARRAY {
                lemma_step_reads_bytes(before.state, d);
            } else {
                lemma_step_reads_number(before.state, d);
            }
            assert(before.state.step() == Step::Yield(d, before.state.moved(image.len())));
        }
    }
}

/// Reading the PLAIN page of `values` gives `values` back, for every
/// physical type, and ends with the last byte of the page.
pub proof fn lemma_plain_round_trip(ty: Type, type_length: int, values: Seq<Datum>)
    requires
        forall|i: int| 0 <= i < values.len() ==> storable(ty, type_length, #[trigger] values[i]),
    ensures
        run(
            PlainCursor::start(ty, type_length, plain_page(ty, values)),
            values.len(),
        ).failure is None,
        run(PlainCursor::start(ty, type_length, plain_page(ty, values)), values.len()).values
            == values,
        run(
            PlainCursor::start(ty, type_length, plain_page(ty, values)),
            values.len(),
        ).state.end_byte() == plain_page(ty, values).len(),
{
    lemma_plain_round_trip_prefix(ty, type_length, values, values.len());
    assert(values.take(values.len() as int) =~= values);
}

} // verus!
