//! The DELTA_BINARY_PACKED encoding: a first value, then the differences
//! between successive values, bit-packed in blocks of mini-blocks.
//!
//! ```text
//! page   := block_size mini_blocks_per_block value_count first_value block*
//! block  := min_delta bit_width{mini_blocks_per_block} mini_block*
//! ```
//!
//! The four header fields and `min_delta` are variable-length integers,
//! `first_value` and `min_delta` in ZigZag coding. Each bit width is one
//! byte. A mini-block holds `block_size / mini_blocks_per_block` differences
//! at its bit width; mini-blocks follow each other without padding.
use crate::basic::{Datum, Type};
use crate::encodings::stream::{run, Cursor, Step};
use crate::errors::ParquetError;
use crate::util::bit_util::{as_i64, bits_value, byte_ceil, i64_from_bits, vlq_at, zigzag};
use vstd::prelude::*;

verus! {

/// The widest difference, in bits.
pub const MAX_DELTA_BIT_WIDTH: u8 = 64;

/// The 64-bit signed integer that is congruent to `x` modulo `2^64`: the
/// result of arithmetic that wraps around.
pub open spec fn wrap_i64(x: int) -> i64 {
    as_i64((x % 0x1_0000_0000_0000_0000) as nat)
}

/// Adds the least difference and a packed difference to a value, wrapping
/// around.
pub fn wrapping_sum(current: i64, min_delta: i64, delta: u64) -> (r: i64)
    ensures
        r == wrap_i64(current + min_delta + delta),
{
    let sum: i128 = current as i128 + min_delta as i128 + delta as i128;
    let shifted: u128 = (sum + 0x1_0000_0000_0000_0000) as u128;
    let low: u64 = (shifted % 0x1_0000_0000_0000_0000) as u64;
    i64_from_bits(low)
}

/// A position in a DELTA_BINARY_PACKED page.
pub struct DeltaCursor {
    /// The physical type of the column that is read.
    pub ty: Type,
    /// The bytes of the page.
    pub bytes: Seq<u8>,
    /// The bit index behind what has been read.
    pub pos: nat,
    /// The number of mini-blocks in each block.
    pub num_mini_blocks: nat,
    /// The number of differences in each mini-block.
    pub values_per_mini_block: nat,
    /// The first value of the page.
    pub first_value: i64,
    /// Whether the first value has been delivered.
    pub first_read: bool,
    /// The least difference of the current block.
    pub min_delta: i64,
    /// The bit widths of the mini-blocks of the current block.
    pub widths: Seq<u8>,
    /// The index of the current mini-block in its block.
    pub mini_idx: nat,
    /// The number of differences that are left in the current mini-block.
    pub mini_left: nat,
    /// The value that was delivered last.
    pub current: i64,
}

impl DeltaCursor {
    /// Reads the header of the next block, at the next byte boundary: the
    /// least difference and one bit width for each mini-block.
    pub open spec fn init_block(self) -> Result<DeltaCursor, ParquetError> {
        let at = byte_ceil(self.pos);
        match vlq_at(self.bytes, at as int) {
            Err(e) => Err(e),
            Ok((m, n)) => if at + n + self.num_mini_blocks <= self.bytes.len() {
                Ok(
                    DeltaCursor {
                        pos: 8 * (at + n + self.num_mini_blocks),
                        min_delta: zigzag(m),
                        widths: self.bytes.subrange(
                            (at + n) as int,
                            (at + n + self.num_mini_blocks) as int,
                        ),
                        mini_idx: 0,
                        mini_left: self.values_per_mini_block,
                        ..self
                    },
                )
            } else {
                Err(ParquetError::NotEnoughBytes)
            },
        }
    }

    /// The cursor in a mini-block that has differences left: the cursor
    /// itself, the next mini-block of the block, or the first mini-block of
    /// the next block.
    pub open spec fn enter_mini_block(self) -> Result<DeltaCursor, ParquetError> {
        if self.mini_left > 0 {
            Ok(self)
        } else if self.mini_idx + 1 < self.widths.len() {
            Ok(
                DeltaCursor {
                    mini_idx: self.mini_idx + 1,
                    mini_left: self.values_per_mini_block,
                    ..self
                },
            )
        } else {
            self.init_block()
        }
    }

    /// The value behind the last: the last value plus the least difference
    /// of the block plus the next packed difference, in wrapping arithmetic.
    /// A bit width above `MAX_DELTA_BIT_WIDTH` and a block without
    /// differences are bad headers.
    pub open spec fn next_delta(self) -> Step<DeltaCursor> {
        match self.enter_mini_block() {
            Err(e) => Step::Fail(e),
            Ok(c) => if c.mini_left == 0 || c.mini_idx >= c.widths.len() || c.widths[c.mini_idx as int]
                > MAX_DELTA_BIT_WIDTH {
                Step::Fail(ParquetError::BadHeader)
            } else {
                let width = c.widths[c.mini_idx as int] as nat;
                if c.pos + width <= 8 * c.bytes.len() {
                    let value = wrap_i64(
                        c.current + c.min_delta + bits_value(c.bytes, c.pos as int, width),
                    );
                    Step::Yield(
                        Datum::Int64(value),
                        DeltaCursor {
                            pos: c.pos + width,
                            mini_left: (c.mini_left - 1) as nat,
                            current: value,
                            ..c
                        },
                    )
                } else {
                    Step::Fail(ParquetError::NotEnoughBytes)
                }
            },
        }
    }
}

impl Cursor for DeltaCursor {
    /// The first step delivers the first value of the header; every later
    /// step adds a difference. Only INT64 columns are read.
    open spec fn step(self) -> Step<DeltaCursor> {
        if self.ty != Type::INT64 {
            Step::Fail(ParquetError::Unsupported)
        } else if !self.first_read {
            Step::Yield(
                Datum::Int64(self.first_value),
                DeltaCursor { first_read: true, current: self.first_value, ..self },
            )
        } else {
            self.next_delta()
        }
    }
}

/// What the header of a page gives: the cursor before the first value and
/// the number of values of the page. The number of mini-blocks must divide
/// the block size, and the size of a mini-block must be a positive multiple
/// of 8; the number of values must not exceed `limit`.
pub open spec fn delta_open(ty: Type, bytes: Seq<u8>, limit: nat) -> Result<
    (DeltaCursor, nat),
    ParquetError,
> {
    if ty != Type::INT64 {
        Err(ParquetError::Unsupported)
    } else {
        match vlq_at(bytes, 0) {
            Err(e) => Err(e),
            Ok((block_size, n1)) => match vlq_at(bytes, n1 as int) {
                Err(e) => Err(e),
                Ok((mini_blocks, n2)) => match vlq_at(bytes, (n1 + n2) as int) {
                    Err(e) => Err(e),
                    Ok((count, n3)) => match vlq_at(bytes, (n1 + n2 + n3) as int) {
                        Err(e) => Err(e),
                        Ok((first, n4)) => if mini_blocks == 0 || block_size % mini_blocks != 0
                            || block_size / mini_blocks == 0 || (block_size / mini_blocks) % 8 != 0
                            || count > limit {
                            Err(ParquetError::BadHeader)
                        } else {
                            Ok(
                                (
                                    DeltaCursor {
                                        ty,
                                        bytes,
                                        pos: 8 * (n1 + n2 + n3 + n4),
                                        num_mini_blocks: mini_blocks as nat,
                                        values_per_mini_block: (block_size / mini_blocks) as nat,
                                        first_value: zigzag(first),
                                        first_read: false,
                                        min_delta: 0,
                                        widths: Seq::empty(),
                                        mini_idx: 0,
                                        mini_left: 0,
                                        current: 0,
                                    },
                                    count as nat,
                                ),
                            )
                        },
                    },
                },
            },
        }
    }
}

/// The integers of a sequence of 64-bit integer values.
pub open spec fn int64s(values: Seq<Datum>) -> Seq<i64> {
    Seq::new(
        values.len(),
        |i: int|
            match values[i] {
                Datum::Int64(x) => x,
                _ => 0i64,
            },
    )
}

/// A position in a DELTA_LENGTH_BYTE_ARRAY page: the lengths of all byte
/// arrays, and the bytes of all byte arrays one after the other.
pub struct LengthCursor {
    /// The physical type of the column that is read.
    pub ty: Type,
    /// The length of each byte array of the page.
    pub lengths: Seq<i64>,
    /// The bytes of the byte arrays, behind the lengths in the page.
    pub data: Seq<u8>,
    /// The index of the next byte array.
    pub idx: nat,
    /// The index in `data` of the first byte of the next byte array.
    pub offset: nat,
}

impl Cursor for LengthCursor {
    /// The next `lengths[idx]` bytes. A negative length is a bad header; a
    /// byte array past the last length or past the last byte lacks bytes.
    /// Only BYTE_ARRAY columns are read.
    open spec fn step(self) -> Step<LengthCursor> {
        if self.ty != Type::BYTE_ARRAY {
            Step::Fail(ParquetError::Unsupported)
        } else if self.idx >= self.lengths.len() {
            Step::Fail(ParquetError::NotEnoughBytes)
        } else if self.lengths[self.idx as int] < 0 {
            Step::Fail(ParquetError::BadHeader)
        } else if self.offset + self.lengths[self.idx as int] > self.data.len() {
            Step::Fail(ParquetError::NotEnoughBytes)
        } else {
            let end = self.offset + self.lengths[self.idx as int];
            Step::Yield(
                Datum::Bytes(self.data.subrange(self.offset as int, end)),
                LengthCursor { idx: self.idx + 1, offset: end as nat, ..self }
            )
        }
    }
}

/// The integers of a whole DELTA_BINARY_PACKED page and the index of the
/// first byte behind them, or the error of the page.
pub open spec fn delta_page(bytes: Seq<u8>, limit: nat) -> Result<(Seq<i64>, nat), ParquetError> {
    match delta_open(Type::INT64, bytes, limit) {
        Err(e) => Err(e),
        Ok((first, count)) => match run(first, count).failure {
            Some(e) => Err(e),
            None => Ok((int64s(run(first, count).values), byte_ceil(run(first, count).state.pos))),
        },
    }
}

/// What a DELTA_LENGTH_BYTE_ARRAY page gives: a DELTA_BINARY_PACKED page of
/// lengths, directly followed by the bytes. The page holds as many byte
/// arrays as lengths.
pub open spec fn length_open(ty: Type, bytes: Seq<u8>, limit: nat) -> Result<
    (LengthCursor, nat),
    ParquetError,
> {
    if ty != Type::BYTE_ARRAY {
        Err(ParquetError::Unsupported)
    } else {
        match delta_page(bytes, limit) {
            Err(e) => Err(e),
            Ok((lengths, end)) => Ok(
                (
                    LengthCursor { ty, lengths, data: bytes.skip(end as int), idx: 0, offset: 0 },
                    lengths.len(),
                ),
            ),
        }
    }
}

/// A position in a DELTA_BYTE_ARRAY page: each byte array is a prefix of
/// the one before it, followed by a suffix.
pub struct PrefixCursor {
    /// The physical type of the column that is read.
    pub ty: Type,
    /// For each byte array, the number of bytes that it shares with the one
    /// before it.
    pub prefix_lengths: Seq<i64>,
    /// The index of the next byte array.
    pub idx: nat,
    /// The position in the suffixes.
    pub suffixes: LengthCursor,
    /// The byte array that was delivered last; empty before the first.
    pub previous: Seq<u8>,
}

impl Cursor for PrefixCursor {
    /// The first `prefix_lengths[idx]` bytes of the previous byte array,
    /// followed by the next suffix. A prefix that is negative or longer than
    /// the previous byte array is a bad header. Only BYTE_ARRAY columns are
    /// read.
    open spec fn step(self) -> Step<PrefixCursor> {
        if self.ty != Type::BYTE_ARRAY {
            Step::Fail(ParquetError::Unsupported)
        } else if self.idx >= self.prefix_lengths.len() {
            Step::Fail(ParquetError::NotEnoughBytes)
        } else if self.prefix_lengths[self.idx as int] < 0 || self.prefix_lengths[self.idx as int]
            > self.previous.len() {
            Step::Fail(ParquetError::BadHeader)
        } else {
            match self.suffixes.step() {
                Step::Fail(e) => Step::Fail(e),
                Step::Yield(Datum::Bytes(suffix), next) => {
                    let value = self.previous.take(self.prefix_lengths[self.idx as int] as int)
                        + suffix;
                    Step::Yield(
                        Datum::Bytes(value),
                        PrefixCursor {
                            idx: self.idx + 1,
                            suffixes: next,
                            previous: value,
                            ..self
                        },
                    )
                },
                Step::Yield(_, _) => Step::Fail(ParquetError::BadHeader),
            }
        }
    }
}

/// What a DELTA_BYTE_ARRAY page gives: a DELTA_BINARY_PACKED page of prefix
/// lengths, directly followed by a DELTA_LENGTH_BYTE_ARRAY page of suffixes.
/// The page holds as many byte arrays as prefix lengths.
pub open spec fn prefix_open(ty: Type, bytes: Seq<u8>, limit: nat) -> Result<
    (PrefixCursor, nat),
    ParquetError,
> {
    if ty != Type::BYTE_ARRAY {
        Err(ParquetError::Unsupported)
    } else {
        match delta_page(bytes, limit) {
            Err(e) => Err(e),
            Ok((prefix_lengths, end)) => match length_open(ty, bytes.skip(end as int), limit) {
                Err(e) => Err(e),
                Ok((suffixes, _)) => Ok(
                    (
                        PrefixCursor {
                            ty,
                            prefix_lengths,
                            idx: 0,
                            suffixes,
                            previous: Seq::empty(),
                        },
                        prefix_lengths.len(),
                    ),
                ),
            },
        }
    }
}

/// Reading values leaves the page and the type of the column as they are.
pub proof fn lemma_delta_run_keeps_page(c: DeltaCursor, n: nat)
    ensures
        run(c, n).state.bytes == c.bytes,
        run(c, n).state.ty == c.ty,
    decreases n,
{
    if n > 0 {
        lemma_delta_run_keeps_page(c, (n - 1) as nat);
    }
}

/// The first value of a page is the first value of its header, whatever
/// the blocks hold: a page that declares one value needs no block at all.
pub proof fn lemma_first_value(bytes: Seq<u8>, limit: nat)
    ensures
        delta_open(Type::INT64, bytes, limit) matches Ok((first, count)) ==> {
            &&& !first.first_read
            &&& run(first, 1).failure is None
            &&& run(first, 1).values == seq![Datum::Int64(first.first_value)]
            &&& count == 1 ==> (delta_page(bytes, limit) matches Ok((values, _)) && values
                == seq![first.first_value])
        },
{
    match delta_open(Type::INT64, bytes, limit) {
        Ok((first, count)) => {
            let one = run(first, 1);
            assert(run(first, 0).failure is None);
            assert(one.values =~= seq![Datum::Int64(first.first_value)]);
            if count == 1 {
                assert(int64s(one.values) =~= seq![first.first_value]);
            }
        },
        Err(_) => {},
    }
}

} // verus!
