//! The hybrid of run-length and bit-packed encoding: a page is a sequence of
//! runs, each announced by a header.
use crate::basic::{DataType, Datum, Type, Value};
use crate::encodings::stream::{drain, lemma_run_split, run, Cursor, Source, Step};
use crate::errors::ParquetError;
use crate::util::bit_util::{
    as_i32, bits_value, byte_ceil, ceil, i32_from_bits, le_value, lemma_bits_value_bound,
    lemma_le_value_bound, lemma_vlq_parse_bound, vlq_at, BitReader, MAX_VLQ_BYTE_LEN,
};
use crate::util::memory::BytePtr;
use vstd::arithmetic::power2::*;
use vstd::prelude::*;

verus! {

/// The widest value that a run can hold, in bits.
pub const MAX_BIT_WIDTH: usize = 32;

/// A position in a page of runs.
pub struct RleCursor {
    /// The bytes of the page.
    pub bytes: Seq<u8>,
    /// The number of bits of each value.
    pub bit_width: nat,
    /// The bit index behind what has been read.
    pub pos: nat,
    /// The number of values that are left in a run of one repeated value.
    pub rle_left: nat,
    /// The number of values that are left in a bit-packed run.
    pub packed_left: nat,
    /// The value of the run of one repeated value.
    pub current: u64,
}

impl RleCursor {
    /// The cursor before the first run of `bytes`.
    pub open spec fn start(bytes: Seq<u8>, bit_width: nat) -> RleCursor {
        RleCursor { bytes, bit_width, pos: 0, rle_left: 0, packed_left: 0, current: 0 }
    }

    /// The number of bytes that hold the value of a run of one repeated
    /// value.
    pub open spec fn value_bytes(self) -> nat {
        (self.bit_width + 7) / 8
    }

    /// Reads the header of the next run, at the next byte boundary. The
    /// header is a variable-length integer `h`. Odd `h` announces a
    /// bit-packed run of `(h / 2) * 8` values. Even `h` announces `h / 2`
    /// repetitions of the value in the following `value_bytes()` bytes.
    pub open spec fn reload(self) -> Result<RleCursor, ParquetError> {
        let at = byte_ceil(self.pos);
        match vlq_at(self.bytes, at as int) {
            Err(e) => Err(e),
            Ok((h, n)) => if h % 2 == 1 {
                Ok(RleCursor { pos: 8 * (at + n), packed_left: ((h / 2) * 8) as nat, ..self })
            } else if at + n + self.value_bytes() <= self.bytes.len() {
                Ok(
                    RleCursor {
                        pos: 8 * (at + n + self.value_bytes()),
                        rle_left: (h / 2) as nat,
                        current: le_value(self.bytes, (at + n) as int, self.value_bytes()) as u64,
                        ..self
                    },
                )
            } else {
                Err(ParquetError::NotEnoughBytes)
            },
        }
    }

    /// A header takes at least one byte and lies within the page.
    pub proof fn lemma_reload_moves(self)
        ensures
            self.reload() matches Ok(next) ==> self.pos < next.pos <= 8 * self.bytes.len()
                && next.bytes == self.bytes && next.bit_width == self.bit_width,
    {
        let at = byte_ceil(self.pos);
        lemma_vlq_parse_bound(self.bytes, at as int, MAX_VLQ_BYTE_LEN as nat);
    }

    /// The next value and the cursor behind it. Runs without values are
    /// passed over. A width above `MAX_BIT_WIDTH` is a bad header; a run
    /// that the end of the page cuts short, or a page without a further run,
    /// lacks bytes.
    pub open spec fn advance(self) -> Result<(u64, RleCursor), ParquetError>
        decreases 8 * self.bytes.len() - self.pos,
    {
        if self.bit_width > MAX_BIT_WIDTH {
            Err(ParquetError::BadHeader)
        } else if self.rle_left > 0 {
            Ok((self.current, RleCursor { rle_left: (self.rle_left - 1) as nat, ..self }))
        } else if self.packed_left > 0 {
            if self.pos + self.bit_width <= 8 * self.bytes.len() {
                Ok(
                    (
                        bits_value(self.bytes, self.pos as int, self.bit_width) as u64,
                        RleCursor {
                            pos: self.pos + self.bit_width,
                            packed_left: (self.packed_left - 1) as nat,
                            ..self
                        },
                    ),
                )
            } else {
                Err(ParquetError::NotEnoughBytes)
            }
        } else {
            match self.reload() {
                Ok(next) => {
                    proof {
                        self.lemma_reload_moves();
                    }
                    next.advance()
                },
                Err(e) => Err(e),
            }
        }
    }
}

/// A position in a page of runs whose values are read as 32-bit signed
/// integers, in two's complement, for a column of physical type `ty`.
pub struct LevelCursor {
    /// The physical type of the column that is read.
    pub ty: Type,
    /// The position in the runs.
    pub rle: RleCursor,
}

impl Cursor for LevelCursor {
    /// Only INT32 columns are read from runs directly.
    open spec fn step(self) -> Step<LevelCursor> {
        if self.ty != Type::INT32 {
            Step::Fail(ParquetError::Unsupported)
        } else {
            match self.rle.advance() {
                Ok((v, next)) => Step::Yield(
                    Datum::Int32(as_i32((v % 0x1_0000_0000) as nat)),
                    LevelCursor { ty: self.ty, rle: next },
                ),
                Err(e) => Step::Fail(e),
            }
        }
    }
}

/// A position in a page of runs whose values are indices into a dictionary.
pub struct DictCursor {
    /// The values of the dictionary.
    pub dict: Seq<Datum>,
    /// The position in the runs.
    pub rle: RleCursor,
}

impl Cursor for DictCursor {
    /// The dictionary value at the next index. An index past the dictionary
    /// is a bad header.
    open spec fn step(self) -> Step<DictCursor> {
        match self.rle.advance() {
            Ok((v, next)) => if v < self.dict.len() {
                Step::Yield(self.dict[v as int], DictCursor { dict: self.dict, rle: next })
            } else {
                Step::Fail(ParquetError::BadHeader)
            },
            Err(e) => Step::Fail(e),
        }
    }
}

/// The view of a dictionary: the mathematical values of its entries.
pub open spec fn dict_view<T: DataType>(dict: Seq<T::T>) -> Seq<Datum> {
    Seq::new(dict.len(), |i: int| T::datum(dict[i]))
}

/// The decoder of runs of unsigned integers of a fixed bit width.
pub struct RawRleDecoder {
    // The number of bits of each value.
    bit_width: usize,
    // The cursor in the page; not set before a page is bound.
    bit_reader: Option<BitReader>,
    // The value of the run of one repeated value.
    current_value: u64,
    // The number of values that are left in a run of one repeated value.
    rle_left: u64,
    // The number of values that are left in a bit-packed run.
    bit_packed_left: u128,
}

impl RawRleDecoder {
    /// Whether a page is bound.
    pub closed spec fn is_set(&self) -> bool {
        &&& self.bit_reader is Some
        &&& self.bit_reader->0.wf()
    }

    /// The number of bits of each value.
    pub closed spec fn spec_bit_width(&self) -> nat {
        self.bit_width as nat
    }

    /// The position in the page.
    pub closed spec fn position(&self) -> RleCursor {
        RleCursor {
            bytes: match self.bit_reader {
                Some(r) => r.bytes(),
                None => Seq::empty(),
            },
            bit_width: self.bit_width as nat,
            pos: match self.bit_reader {
                Some(r) => r.pos(),
                None => 0,
            },
            rle_left: self.rle_left as nat,
            packed_left: self.bit_packed_left as nat,
            current: self.current_value,
        }
    }

    /// A decoder of values of `bit_width` bits, without a page.
    pub fn new(bit_width: usize) -> (r: RawRleDecoder)
        ensures
            r.wf(),
            !r.is_set(),
            r.spec_bit_width() == bit_width,
    {
        RawRleDecoder {
            bit_width,
            bit_reader: None,
            current_value: 0,
            rle_left: 0,
            bit_packed_left: 0,
        }
    }

    /// The representation invariant.
    pub closed spec fn wf(&self) -> bool {
        self.bit_reader is Some ==> self.bit_reader->0.wf()
    }

    /// Whether a page is bound.
    pub fn has_data(&self) -> (b: bool)
        requires
            self.wf(),
        ensures
            b == self.is_set(),
    {
        self.bit_reader.is_some()
    }

    /// Binds the page `data`: the first run starts at its first byte.
    pub fn set_data(&mut self, data: BytePtr)
        ensures
            final(self).wf(),
            final(self).is_set(),
            final(self).position() == RleCursor::start(data@, old(self).spec_bit_width()),
            final(self).spec_bit_width() == old(self).spec_bit_width(),
    {
        self.bit_reader = Some(BitReader::new(data));
        self.current_value = 0;
        self.rle_left = 0;
        self.bit_packed_left = 0;
    }

    /// Reads the header of the next run.
    fn reload(&mut self) -> (r: Result<(), ParquetError>)
        requires
            old(self).is_set(),
            old(self).spec_bit_width() <= MAX_BIT_WIDTH,
        ensures
            final(self).wf(),
            final(self).is_set(),
            final(self).spec_bit_width() == old(self).spec_bit_width(),
            match old(self).position().reload() {
                Ok(next) => r is Ok && final(self).position() == next,
                Err(e) => r == Err::<(), ParquetError>(e),
            },
    {
        let width = self.bit_width;
        let reader = match self.bit_reader.as_mut() {
            Some(r) => r,
            None => {
                return Err(ParquetError::NotEnoughBytes);
            },
        };
        let ghost at = byte_ceil(reader.pos());
        proof {
            lemma_vlq_parse_bound(reader.bytes(), at as int, MAX_VLQ_BYTE_LEN as nat);
        }
        let header = match reader.get_vlq_int() {
            Ok(h) => h,
            Err(e) => {
                return Err(e);
            },
        };
        if header % 2 == 1 {
            self.bit_packed_left = (header / 2) as u128 * 8;
        } else {
            let value_bytes = ceil(width, 8);
            proof {
                lemma_le_value_bound(
                    reader.bytes(),
                    byte_ceil(reader.pos()) as int,
                    value_bytes as nat,
                );
                lemma_pow2_strictly_increases((8 * value_bytes) as nat, 64);
                lemma2_to64();
            }
            match reader.get_aligned(value_bytes) {
                Ok(v) => {
                    self.current_value = v;
                    self.rle_left = header / 2;
                },
                Err(e) => {
                    return Err(e);
                },
            }
        }
        Ok(())
    }

    /// Reads the next value and moves behind it.
    pub fn next_value(&mut self) -> (r: Result<u64, ParquetError>)
        requires
            old(self).is_set(),
        ensures
            final(self).wf(),
            final(self).is_set(),
            final(self).spec_bit_width() == old(self).spec_bit_width(),
            match old(self).position().advance() {
                Ok((v, next)) => r == Ok::<u64, ParquetError>(v) && final(self).position() == next,
                Err(e) => r == Err::<u64, ParquetError>(e),
            },
    {
        if self.bit_width > MAX_BIT_WIDTH {
            return Err(ParquetError::BadHeader);
        }
        let ghost begin = self.position();
        proof {
            self.bit_reader->0.lemma_pos_in_bounds();
        }
        loop
            invariant
                self.is_set(),
                self.bit_width <= MAX_BIT_WIDTH,
                self.spec_bit_width() == old(self).spec_bit_width(),
                begin == old(self).position(),
                self.position().advance() == begin.advance(),
                self.position().pos <= 8 * self.position().bytes.len(),
            decreases 8 * self.position().bytes.len() - self.position().pos,
        {
            let ghost here = self.position();
            if self.rle_left > 0 {
                self.rle_left = self.rle_left - 1;
                return Ok(self.current_value);
            } else if self.bit_packed_left > 0 {
                let width = self.bit_width;
                proof {
                    lemma_bits_value_bound(here.bytes, here.pos as int, width as nat);
                    lemma_pow2_strictly_increases(width as nat, 64);
                    lemma2_to64();
                }
                match self.bit_reader.as_mut() {
                    Some(reader) => match reader.get_value(width) {
                        Ok(v) => {
                            self.bit_packed_left = self.bit_packed_left - 1;
                            return Ok(v);
                        },
                        Err(e) => {
                            return Err(e);
                        },
                    },
                    None => {
                        return Err(ParquetError::NotEnoughBytes);
                    },
                }
            } else {
                proof {
                    here.lemma_reload_moves();
                }
                match self.reload() {
                    Ok(()) => {},
                    Err(e) => {
                        return Err(e);
                    },
                }
            }
        }
    }
    /// Decodes the next `max_values` values as 32-bit signed integers into
    /// the first places of `buffer`; the other places keep what they held.
    /// Fails with `Unsupported` where `T` is not the type of 32-bit integers.
    pub fn decode<T: DataType>(&mut self, buffer: &mut [T::T], max_values: usize) -> (r: Result<
        usize,
        ParquetError,
    >)
        requires
            old(self).is_set(),
            max_values <= old(buffer)@.len(),
        ensures
            final(self).wf(),
            final(self).is_set(),
            final(buffer)@.len() == old(buffer)@.len(),
            match run(
                LevelCursor { ty: T::physical_type(), rle: old(self).position() },
                max_values as nat,
            ).failure {
                None => {
                    let out = run(
                        LevelCursor { ty: T::physical_type(), rle: old(self).position() },
                        max_values as nat,
                    );
                    &&& r == Ok::<usize, ParquetError>(max_values)
                    &&& final(self).position() == out.state.rle
                    &&& forall|i: int|
                        0 <= i < max_values ==> T::datum(#[trigger] final(buffer)@[i])
                            == out.values[i]
                    &&& forall|i: int|
                        max_values <= i < old(buffer)@.len() ==> final(buffer)@[i] == old(
                            buffer,
                        )@[i]
                },
                Some(e) => r == Err::<usize, ParquetError>(e),
            },
    {
        let ghost first = LevelCursor { ty: T::physical_type(), rle: self.position() };
        let ghost out = run(first, max_values as nat);
        assert(first == <RawRleDecoder as Source<T>>::cursor(self));
        match drain::<T, RawRleDecoder>(self, buffer, max_values) {
            Ok(()) => Ok(max_values),
            Err(e) => Err(e),
        }
    }

    /// Decodes the next `max_values` values as indices into `dict` and
    /// writes the entries at these indices into the first places of
    /// `buffer`; the other places keep what they held.
    pub fn decode_with_dict<T: DataType>(
        &mut self,
        dict: &[T::T],
        buffer: &mut [T::T],
        max_values: usize,
    ) -> (r: Result<usize, ParquetError>)
        requires
            old(self).is_set(),
            max_values <= old(buffer)@.len(),
        ensures
            final(self).wf(),
            final(self).is_set(),
            final(self).spec_bit_width() == old(self).spec_bit_width(),
            final(buffer)@.len() == old(buffer)@.len(),
            match run(
                DictCursor { dict: dict_view::<T>(dict@), rle: old(self).position() },
                max_values as nat,
            ).failure {
                None => {
                    let out = run(
                        DictCursor { dict: dict_view::<T>(dict@), rle: old(self).position() },
                        max_values as nat,
                    );
                    &&& r == Ok::<usize, ParquetError>(max_values)
                    &&& out.state == (DictCursor {
                        dict: dict_view::<T>(dict@),
                        rle: final(self).position(),
                    })
                    &&& forall|i: int|
                        0 <= i < max_values ==> T::datum(#[trigger] final(buffer)@[i])
                            == out.values[i]
                    &&& forall|i: int|
                        max_values <= i < old(buffer)@.len() ==> final(buffer)@[i] == old(
                            buffer,
                        )@[i]
                },
                Some(e) => r == Err::<usize, ParquetError>(e),
            },
    {
        let ghost entries = dict_view::<T>(dict@);
        let ghost first = DictCursor { dict: entries, rle: self.position() };
        let mut i: usize = 0;
        while i < max_values
            invariant
                i <= max_values <= buffer@.len(),
                buffer@.len() == old(buffer)@.len(),
                self.is_set(),
                self.spec_bit_width() == old(self).spec_bit_width(),
                entries == dict_view::<T>(dict@),
                first == (DictCursor { dict: entries, rle: old(self).position() }),
                run(first, i as nat).failure is None,
                run(first, i as nat).state == (DictCursor { dict: entries, rle: self.position() }),
                run(first, i as nat).values.len() == i,
                forall|j: int|
                    0 <= j < i ==> T::datum(#[trigger] buffer@[j]) == run(first, i as nat).values[j],
                forall|j: int| i <= j < buffer@.len() ==> buffer@[j] == old(buffer)@[j],
            decreases max_values - i,
        {
            let ghost before = run(first, i as nat);
            let ghost after = run(first, (i + 1) as nat);
            let ghost expected = before.state.step();
            proof {
                assert((i + 1) as nat - 1 == i as nat);
                lemma_run_split(
                    first,
                    (i + 1) as nat,
                    (max_values - i - 1) as nat,
                );
                assert((i + 1) as nat + (max_values - i - 1) as nat == max_values as nat);
            }
            let index = match self.next_value() {
                Ok(v) => v,
                Err(e) => {
                    proof {
                        assert(after.failure == Some(e));
                        assert(run(first, max_values as nat) == after);
                    }
                    return Err(e);
                },
            };
            if index >= dict.len() as u64 {
                proof {
                    assert(after.failure == Some(ParquetError::BadHeader));
                    assert(run(first, max_values as nat) == after);
                }
                return Err(ParquetError::BadHeader);
            }
            let v = T::duplicate(&dict[index as usize]);
            buffer[i] = v;
            proof {
                assert(after.values == before.values.push(T::datum(v)));
                assert forall|j: int| 0 <= j < i + 1 implies T::datum(#[trigger] buffer@[j])
                    == after.values[j] by {
                    if j < i {
                        assert(after.values[j] == before.values[j]);
                    }
                }
            }
            i += 1;
        }
        Ok(max_values)
    }
}

impl<T: DataType> Source<T> for RawRleDecoder {
    type State = LevelCursor;

    open spec fn primed(&self) -> bool {
        self.is_set()
    }

    open spec fn cursor(&self) -> LevelCursor {
        LevelCursor { ty: T::physical_type(), rle: self.position() }
    }

    fn read_value(&mut self) -> (r: Result<T::T, ParquetError>) {
        let ghost expected = <RawRleDecoder as Source<T>>::cursor(self).step();
        match T::get_physical_type() {
            Type::INT32 => {},
            _ => {
                return Err(ParquetError::Unsupported);
            },
        }
        let v = match self.next_value() {
            Ok(v) => v,
            Err(e) => {
                return Err(e);
            },
        };
        let bits: u32 = (v % 0x1_0000_0000) as u32;
        match T::from_value(Value::Int32(i32_from_bits(bits))) {
            Some(x) => Ok(x),
            None => Err(ParquetError::Unsupported),
        }
    }
}

/// In a page of values of no bits, every run repeats zero.
pub open spec fn all_zero(c: RleCursor) -> bool {
    c.bit_width == 0 && (c.rle_left > 0 ==> c.current == 0)
}

/// A value of no bits is zero.
pub proof fn lemma_zero_width_advance(c: RleCursor)
    requires
        all_zero(c),
    ensures
        c.advance() matches Ok((v, next)) ==> v == 0 && all_zero(next),
    decreases 8 * c.bytes.len() - c.pos,
{
    if c.rle_left == 0 && c.packed_left == 0 {
        match c.reload() {
            Ok(next) => {
                c.lemma_reload_moves();
                lemma_zero_width_advance(next);
            },
            Err(_) => {},
        }
    }
}

/// With a bit width of zero, every page of levels decodes to zeros,
/// however many values are read and whatever the runs are.
pub proof fn lemma_zero_width_levels(bytes: Seq<u8>, n: nat)
    ensures
        forall|i: int|
            0 <= i < run(
                LevelCursor { ty: Type::INT32, rle: RleCursor::start(bytes, 0) },
                n,
            ).values.len() ==> #[trigger] run(
                LevelCursor { ty: Type::INT32, rle: RleCursor::start(bytes, 0) },
                n,
            ).values[i] == Datum::Int32(0),
        all_zero(run(LevelCursor { ty: Type::INT32, rle: RleCursor::start(bytes, 0) }, n).state.rle),
        run(LevelCursor { ty: Type::INT32, rle: RleCursor::start(bytes, 0) }, n).state.ty
            == Type::INT32,
    decreases n,
{
    let first = LevelCursor { ty: Type::INT32, rle: RleCursor::start(bytes, 0) };
    if n > 0 {
        lemma_zero_width_levels(bytes, (n - 1) as nat);
        let before = run(first, (n - 1) as nat);
        lemma_zero_width_advance(before.state.rle);
    }
}

} // verus!
