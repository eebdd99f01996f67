//! The PLAIN encoding: the values of a page stand one after the other, each
//! in the fixed layout of its physical type.
use crate::basic::{Datum, Type};
use crate::encodings::stream::{run, Cursor, Run, Step};
use crate::errors::ParquetError;
use crate::util::bit_util::{as_i32, as_i64, bit_at, byte_ceil, le_value};
use vstd::prelude::*;

verus! {

/// A position in a PLAIN page.
pub struct PlainCursor {
    /// The physical type of the values.
    pub ty: Type,
    /// The byte length of each value of a fixed-length byte array column.
    pub type_length: int,
    /// The bytes of the page.
    pub bytes: Seq<u8>,
    /// Where the next value starts: a bit index in a BOOLEAN page, a byte
    /// index in every other page.
    pub pos: nat,
}

impl PlainCursor {
    /// The cursor before the first value of a page.
    pub open spec fn start(ty: Type, type_length: int, bytes: Seq<u8>) -> PlainCursor {
        PlainCursor { ty, type_length, bytes, pos: 0 }
    }

    /// The index of the first byte behind what has been read.
    pub open spec fn end_byte(self) -> nat {
        if self.ty == Type::BOOLEAN {
            byte_ceil(self.pos)
        } else {
            self.pos
        }
    }

    /// The same position in the page that holds only the first `m` bytes.
    pub open spec fn truncated(self, m: nat) -> PlainCursor {
        PlainCursor { bytes: self.bytes.take(m as int), ..self }
    }

    /// The cursor `n` places further on.
    pub open spec fn moved(self, n: nat) -> PlainCursor {
        PlainCursor { pos: self.pos + n, ..self }
    }

    /// The number of bytes of a value of a type whose values all have the
    /// same size: 4, 8 or 12 bytes for the numeric types, `type_length` for
    /// fixed-length byte arrays. `None` for the types that are laid out
    /// otherwise.
    pub open spec fn fixed_width(self) -> Option<nat> {
        match self.ty {
            Type::INT32 | Type::FLOAT => Some(4nat),
            Type::INT64 | Type::DOUBLE => Some(8nat),
            Type::INT96 => Some(12nat),
            Type::FIXED_LEN_BYTE_ARRAY => if self.type_length > 0 {
                Some(self.type_length as nat)
            } else {
                None
            },
            Type::BOOLEAN | Type::BYTE_ARRAY => None,
        }
    }

    /// The value of a fixed-width type that starts at byte `pos`.
    pub open spec fn fixed_value(self) -> Datum {
        let at = self.pos as int;
        match self.ty {
            Type::INT32 => Datum::Int32(as_i32(le_value(self.bytes, at, 4))),
            Type::INT64 => Datum::Int64(as_i64(le_value(self.bytes, at, 8))),
            Type::FLOAT => Datum::Float(le_value(self.bytes, at, 4) as u32),
            Type::DOUBLE => Datum::Double(le_value(self.bytes, at, 8) as u64),
            Type::INT96 => Datum::Int96(
                le_value(self.bytes, at, 4) as u32,
                le_value(self.bytes, at + 4, 4) as u32,
                le_value(self.bytes, at + 8, 4) as u32,
            ),
            _ => Datum::Bytes(self.bytes.subrange(at, at + self.type_length)),
        }
    }
}

impl Cursor for PlainCursor {
    /// BOOLEAN: the next bit. INT32, INT64, FLOAT, DOUBLE: the next 4 or 8
    /// bytes, least significant byte first. INT96: the next three words of 4
    /// bytes. BYTE_ARRAY: a length of 4 bytes, then that many bytes.
    /// FIXED_LEN_BYTE_ARRAY: the next `type_length` bytes. A value that the
    /// page does not hold in full lacks bytes.
    open spec fn step(self) -> Step<PlainCursor> {
        match self.ty {
            Type::BOOLEAN => if self.pos < 8 * self.bytes.len() {
                Step::Yield(Datum::Bool(bit_at(self.bytes, self.pos as int)), self.moved(1))
            } else {
                Step::Fail(ParquetError::NotEnoughBytes)
            },
            Type::BYTE_ARRAY => if self.pos + 4 <= self.bytes.len() {
                let n = le_value(self.bytes, self.pos as int, 4);
                if self.pos + 4 + n <= self.bytes.len() {
                    Step::Yield(
                        Datum::Bytes(self.bytes.subrange(self.pos as int + 4, self.pos as int + 4 + n)),
                        self.moved(4 + n),
                    )
                } else {
                    Step::Fail(ParquetError::NotEnoughBytes)
                }
            } else {
                Step::Fail(ParquetError::NotEnoughBytes)
            },
            _ => match self.fixed_width() {
                Some(w) => if self.pos + w <= self.bytes.len() {
                    Step::Yield(self.fixed_value(), self.moved(w))
                } else {
                    Step::Fail(ParquetError::NotEnoughBytes)
                },
                None => Step::Fail(ParquetError::BadHeader),
            },
        }
    }
}

/// An integer that lies within the first `m` bytes does not depend on the
/// bytes behind them.
pub proof fn lemma_le_value_take(bytes: Seq<u8>, m: nat, off: int, count: nat)
    requires
        0 <= off,
        off + count <= m <= bytes.len(),
    ensures
        le_value(bytes.take(m as int), off, count) == le_value(bytes, off, count),
    decreases count,
{
    if count > 0 {
        lemma_le_value_take(bytes, m, off + 1, (count - 1) as nat);
    }
}

/// A value that lies within the first `m` bytes of a page is read from
/// these bytes alone; a value that reaches beyond them is cut short.
pub proof fn lemma_step_truncated(c: PlainCursor, m: nat)
    requires
        m <= c.bytes.len(),
        c.end_byte() <= m,
    ensures
        c.step() matches Step::Yield(d, next) ==> {
            &&& c.end_byte() <= next.end_byte()
            &&& next.end_byte() <= m ==> c.truncated(m).step() == Step::Yield(
                d,
                next.truncated(m),
            )
            &&& next.end_byte() > m ==> c.truncated(m).step() == Step::<PlainCursor>::Fail(
                ParquetError::NotEnoughBytes,
            )
        },
{
    let t = c.truncated(m);
    let at = c.pos as int;
    match c.step() {
        Step::Yield(d, next) => {
            match c.ty {
                Type::BOOLEAN => {},
                Type::BYTE_ARRAY => {
                    if c.pos + 4 <= m {
                        lemma_le_value_take(c.bytes, m, at, 4);
                        let n = le_value(c.bytes, at, 4);
                        if c.pos + 4 + n <= m {
                            assert(t.bytes.subrange(at + 4, at + 4 + n) =~= c.bytes.subrange(
                                at + 4,
                                at + 4 + n,
                            ));
                        }
                    }
                },
                _ => {
                    let w = c.fixed_width()->0;
                    if c.pos + w <= m {
                        match c.ty {
                            Type::INT32 | Type::FLOAT => {
                                lemma_le_value_take(c.bytes, m, at, 4);
                            },
                            Type::INT64 | Type::DOUBLE => {
                                lemma_le_value_take(c.bytes, m, at, 8);
                            },
                            Type::INT96 => {
                                lemma_le_value_take(c.bytes, m, at, 4);
                                lemma_le_value_take(c.bytes, m, at + 4, 4);
                                lemma_le_value_take(c.bytes, m, at + 8, 4);
                            },
                            _ => {
                                assert(t.bytes.subrange(at, at + c.type_length)
                                    =~= c.bytes.subrange(at, at + c.type_length));
                            },
                        }
                    }
                },
            }
        },
        Step::Fail(_) => {},
    }
}

/// Reading a page of which only the first `m` bytes are there: as long as
/// the values lie within these bytes, they are the values of the whole page;
/// the first value that reaches beyond them is cut short.
pub proof fn lemma_run_truncated(c: PlainCursor, m: nat, n: nat)
    requires
        m <= c.bytes.len(),
        c.end_byte() <= m,
        run(c, n).failure is None,
    ensures
        run(c, n).state.bytes == c.bytes,
        run(c, n).state.ty == c.ty,
        run(c, n).state.type_length == c.type_length,
        c.end_byte() <= run(c, n).state.end_byte(),
        run(c, n).state.end_byte() <= m ==> run(c.truncated(m), n) == (Run {
            values: run(c, n).values,
            state: run(c, n).state.truncated(m),
            failure: None,
        }),
        run(c, n).state.end_byte() > m ==> run(c.truncated(m), n).failure == Some(
            ParquetError::NotEnoughBytes,
        ),
    decreases n,
{
    if n > 0 {
        let before = run(c, (n - 1) as nat);
        lemma_run_truncated(c, m, (n - 1) as nat);
        if before.state.end_byte() <= m {
            lemma_step_truncated(before.state, m);
        }
    }
}

/// A page from which bytes are missing at the end never delivers all its
/// values: where a page holds exactly `n` values, reading `n` values from
/// any shorter beginning of it fails for want of bytes.
pub proof fn lemma_truncated_page_fails(
    ty: Type,
    type_length: int,
    bytes: Seq<u8>,
    n: nat,
    m: nat,
)
    requires
        run(PlainCursor::start(ty, type_length, bytes), n).failure is None,
        run(PlainCursor::start(ty, type_length, bytes), n).state.end_byte() == bytes.len(),
        m < bytes.len(),
    ensures
        run(PlainCursor::start(ty, type_length, bytes.take(m as int)), n).failure == Some(
            ParquetError::NotEnoughBytes,
        ),
{
    let c = PlainCursor::start(ty, type_length, bytes);
    lemma_run_truncated(c, m, n);
    assert(c.truncated(m) == PlainCursor::start(ty, type_length, bytes.take(m as int)));
}

/// The values of a type of fixed width stand at multiples of the width:
/// value `i` behind the cursor takes the `w` bytes from `pos + i * w` on.
/// Reading `k` values succeeds if and only if `k * w` bytes are left.
pub proof fn lemma_fixed_width_run(c: PlainCursor, k: nat)
    requires
        c.fixed_width() is Some,
        c.pos <= c.bytes.len(),
    ensures
        c.pos + k * c.fixed_width()->0 <= c.bytes.len() ==> {
            &&& run(c, k).failure is None
            &&& run(c, k).state == c.moved(k * c.fixed_width()->0)
            &&& run(c, k).values.len() == k
            &&& forall|i: int|
                0 <= i < k ==> #[trigger] run(c, k).values[i] == c.moved(
                    (i * c.fixed_width()->0) as nat,
                ).fixed_value()
        },
        c.pos + k * c.fixed_width()->0 > c.bytes.len() ==> run(c, k).failure == Some(
            ParquetError::NotEnoughBytes,
        ),
    decreases k,
{
    let w = c.fixed_width()->0;
    if k == 0 {
        assert(0 * w == 0) by (nonlinear_arith);
        assert(c.moved(0) == c);
    } else {
        let j = (k - 1) as nat;
        lemma_fixed_width_run(c, j);
        assert(j * w + w == k * w) by (nonlinear_arith)
            requires
                j + 1 == k,
        ;
        assert(j * w >= 0) by (nonlinear_arith)
            requires
                j >= 0,
                w >= 0,
        ;
        let before = run(c, j);
        if c.pos + j * w <= c.bytes.len() {
            let here = c.moved(j * w);
            assert(here.fixed_width() == Some(w));
            let next = here.step();
            if c.pos + k * w <= c.bytes.len() {
                assert(here.moved(w) == c.moved(k * w));
                assert forall|i: int| 0 <= i < k implies #[trigger] run(c, k).values[i] == c.moved(
                    (i * w) as nat,
                ).fixed_value() by {
                    if i < j {
                        assert(run(c, k).values[i] == before.values[i]);
                    }
                }
            }
        }
    }
}

/// The values of a BOOLEAN page are its bits: value `i` behind the cursor
/// is bit `pos + i`. Reading `k` values succeeds if and only if `k` bits
/// are left.
pub proof fn lemma_boolean_run(c: PlainCursor, k: nat)
    requires
        c.ty == Type::BOOLEAN,
        c.pos <= 8 * c.bytes.len(),
    ensures
        c.pos + k <= 8 * c.bytes.len() ==> {
            &&& run(c, k).failure is None
            &&& run(c, k).state == c.moved(k)
            &&& run(c, k).values.len() == k
            &&& forall|i: int|
                0 <= i < k ==> #[trigger] run(c, k).values[i] == Datum::Bool(
                    bit_at(c.bytes, c.pos + i),
                )
        },
        c.pos + k > 8 * c.bytes.len() ==> run(c, k).failure == Some(ParquetError::NotEnoughBytes),
    decreases k,
{
    if k == 0 {
        assert(c.moved(0) == c);
    } else {
        let j = (k - 1) as nat;
        lemma_boolean_run(c, j);
        let before = run(c, j);
        if c.pos + j <= 8 * c.bytes.len() {
            let here = c.moved(j);
            let next = here.step();
            if c.pos + k <= 8 * c.bytes.len() {
                assert(here.moved(1) == c.moved(k));
                assert forall|i: int| 0 <= i < k implies #[trigger] run(c, k).values[i]
                    == Datum::Bool(bit_at(c.bytes, c.pos + i)) by {
                    if i < j {
                        assert(run(c, k).values[i] == before.values[i]);
                    }
                }
            }
        }
    }
}

} // verus!
