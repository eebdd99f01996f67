//! Reading integers from a byte buffer: single bits, groups of bits, whole
//! bytes in little-endian order, and variable-length integers.
use crate::errors::ParquetError;
use crate::util::memory::BytePtr;
use vstd::arithmetic::power2::*;
use vstd::prelude::*;

verus! {

/// The least `n` such that `x <= 2^n`.
pub open spec fn ceil_log2(x: nat) -> nat
    decreases x,
{
    if x <= 1 {
        0
    } else {
        1 + ceil_log2((x + 1) / 2)
    }
}

/// `ceil_log2(x)` is the least exponent whose power of two reaches `x`.
pub proof fn lemma_ceil_log2_is_least(x: nat)
    ensures
        x <= pow2(ceil_log2(x)),
        ceil_log2(x) > 0 ==> pow2((ceil_log2(x) - 1) as nat) < x,
    decreases x,
{
    lemma2_to64();
    if x > 1 {
        let y = (x + 1) / 2;
        let n = ceil_log2(y);
        lemma_ceil_log2_is_least(y);
        lemma_pow2_unfold(n + 1);
        if n > 0 {
            lemma_pow2_unfold(n);
        }
    }
}

/// The number of bits that a level between 0 and `x` is stored in, by the
/// convention of the level encoder: the least `n` with `x <= 2^n`.
pub fn log2(x: u64) -> (n: u32)
    ensures
        n == ceil_log2(x as nat),
        n <= 64,
{
    let mut y: u64 = x;
    let mut n: u32 = 0;
    while y > 1
        invariant
            ceil_log2(x as nat) == n + ceil_log2(y as nat),
            n <= 64,
            n > 0 ==> y <= pow2((64 - n) as nat),
        decreases y,
    {
        proof {
            lemma2_to64();
            if n == 0 {
                assert(y <= pow2(64) - 1);
            }
            if n < 64 {
                lemma_pow2_unfold((64 - n) as nat);
            } else {
                assert(y <= 1);
            }
        }
        y = y / 2 + y % 2;
        n = n + 1;
    }
    n
}

/// The least number of groups of `divisor` that hold `value`.
pub fn ceil(value: usize, divisor: usize) -> (r: usize)
    requires
        divisor > 0,
    ensures
        r == (value + divisor - 1) / (divisor as int),
{
    let q = value / divisor;
    let m = value % divisor;
    proof {
        assert(value == q * divisor + m) by (nonlinear_arith)
            requires
                q == value / divisor,
                m == value % divisor,
                divisor > 0,
        ;
        assert(q <= q * divisor) by (nonlinear_arith)
            requires
                divisor > 0,
                q >= 0,
        ;
        if m == 0 {
            assert((q * divisor + divisor - 1) / (divisor as int) == q) by (nonlinear_arith)
                requires
                    divisor > 0,
            ;
        } else {
            assert((q * divisor + m + divisor - 1) / (divisor as int) == q + 1)
                by (nonlinear_arith)
                requires
                    divisor > 0,
                    0 < m < divisor,
            ;
        }
    }
    if m == 0 {
        q
    } else {
        q + 1
    }
}

/// Bit `i` of a buffer: bits are numbered from the least significant bit of
/// the first byte.
pub open spec fn bit_at(bytes: Seq<u8>, i: int) -> bool {
    (bytes[i / 8] >> ((i % 8) as u8)) & 1 == 1
}

/// The unsigned integer whose `width` bits are the bits of the buffer from
/// bit `pos` on, least significant bit first.
pub open spec fn bits_value(bytes: Seq<u8>, pos: int, width: nat) -> nat
    decreases width,
{
    if width == 0 {
        0
    } else {
        (if bit_at(bytes, pos) {
            1nat
        } else {
            0nat
        }) + 2 * bits_value(bytes, pos + 1, (width - 1) as nat)
    }
}

/// The unsigned integer whose `count` bytes are the bytes of the buffer from
/// index `off` on, least significant byte first.
pub open spec fn le_value(bytes: Seq<u8>, off: int, count: nat) -> nat
    decreases count,
{
    if count == 0 {
        0
    } else {
        bytes[off] as nat + 256 * le_value(bytes, off + 1, (count - 1) as nat)
    }
}

/// An integer of `width` bits is below `2^width`.
pub proof fn lemma_bits_value_bound(bytes: Seq<u8>, pos: int, width: nat)
    ensures
        bits_value(bytes, pos, width) < pow2(width),
    decreases width,
{
    lemma2_to64();
    if width > 0 {
        lemma_bits_value_bound(bytes, pos + 1, (width - 1) as nat);
        lemma_pow2_unfold(width);
    }
}

/// An integer of `count` bytes is below `2^(8 * count)`.
pub proof fn lemma_le_value_bound(bytes: Seq<u8>, off: int, count: nat)
    ensures
        le_value(bytes, off, count) < pow2(8 * count),
    decreases count,
{
    lemma2_to64();
    if count > 0 {
        lemma_le_value_bound(bytes, off + 1, (count - 1) as nat);
        lemma_pow2_adds(8, (8 * (count - 1)) as nat);
    }
}

/// The variable-length integer that starts at byte `off`: its value and the
/// number of bytes it takes. Each byte carries seven bits, least significant
/// group first, and its top bit says that another byte follows. `None` where
/// no last byte is found within `budget` bytes or before the buffer ends.
pub open spec fn vlq_parse(bytes: Seq<u8>, off: int, budget: nat) -> Option<(nat, nat)>
    decreases budget,
{
    if budget == 0 || off < 0 || off >= bytes.len() {
        None
    } else if bytes[off] < 128 {
        Some((bytes[off] as nat, 1nat))
    } else {
        match vlq_parse(bytes, off + 1, (budget - 1) as nat) {
            Some((v, n)) => Some(((bytes[off] - 128) as nat + 128 * v, n + 1)),
            None => None,
        }
    }
}

/// An integer of `n` groups of seven bits is below `2^(7 * n)`, and no
/// integer takes more bytes than the budget.
pub proof fn lemma_vlq_parse_bound(bytes: Seq<u8>, off: int, budget: nat)
    ensures
        vlq_parse(bytes, off, budget) matches Some((v, n)) ==> v < pow2(7 * n) && 1 <= n <= budget
            && off + n <= bytes.len(),
    decreases budget,
{
    lemma2_to64();
    if budget > 0 && 0 <= off < bytes.len() && bytes[off] >= 128 {
        lemma_vlq_parse_bound(bytes, off + 1, (budget - 1) as nat);
        match vlq_parse(bytes, off + 1, (budget - 1) as nat) {
            Some((v, n)) => {
                lemma_pow2_adds(7, 7 * n);
            },
            None => {},
        }
    }
}

/// Where the next `n` bytes all announce a successor and either the budget or
/// the buffer ends with them, no integer is found.
proof fn lemma_vlq_parse_none(bytes: Seq<u8>, off: int, budget: nat, n: nat)
    requires
        0 <= off,
        off + n <= bytes.len(),
        n <= budget,
        forall|i: int| off <= i < off + n ==> bytes[i] >= 128,
        n == budget || off + n == bytes.len(),
    ensures
        vlq_parse(bytes, off, budget) is None,
    decreases n,
{
    if n > 0 {
        assert(bytes[off] >= 128);
        lemma_vlq_parse_none(bytes, off + 1, (budget - 1) as nat, (n - 1) as nat);
    }
}

/// The longest variable-length integer that is read, in bytes.
pub const MAX_VLQ_BYTE_LEN: usize = 10;

/// What reading a variable-length integer at byte `off` gives: the value
/// and the number of bytes read, or the error. An integer that takes more
/// than `MAX_VLQ_BYTE_LEN` bytes or does not fit in 64 bits is a bad header;
/// one that the end of the buffer cuts short lacks bytes.
pub open spec fn vlq_at(bytes: Seq<u8>, off: int) -> Result<(u64, nat), ParquetError> {
    match vlq_parse(bytes, off, MAX_VLQ_BYTE_LEN as nat) {
        Some((v, n)) => if v <= u64::MAX {
            Ok((v as u64, n))
        } else {
            Err(ParquetError::BadHeader)
        },
        None => if bytes.len() - off >= MAX_VLQ_BYTE_LEN {
            Err(ParquetError::BadHeader)
        } else {
            Err(ParquetError::NotEnoughBytes)
        },
    }
}

/// The signed integer that the unsigned `n` stands for in ZigZag coding:
/// even numbers are the non-negative integers, odd numbers the negative ones.
pub open spec fn zigzag(n: u64) -> i64 {
    if n % 2 == 0 {
        (n / 2) as i64
    } else {
        (-(n / 2) - 1) as i64
    }
}

/// ZigZag decoding of `n`.
pub fn zigzag_decode(n: u64) -> (r: i64)
    ensures
        r == zigzag(n),
{
    let half: i64 = (n / 2) as i64;
    if n % 2 == 0 {
        half
    } else {
        -half - 1
    }
}

/// The signed 32-bit integer whose two's complement representation is `x`.
pub open spec fn as_i32(x: nat) -> i32 {
    if x < 0x8000_0000 {
        x as i32
    } else {
        (x - 0x1_0000_0000) as i32
    }
}

/// The signed 64-bit integer whose two's complement representation is `x`.
pub open spec fn as_i64(x: nat) -> i64 {
    if x < 0x8000_0000_0000_0000 {
        x as i64
    } else {
        (x - 0x1_0000_0000_0000_0000) as i64
    }
}

/// Reads a 32-bit pattern as a signed integer in two's complement.
pub fn i32_from_bits(x: u32) -> (r: i32)
    ensures
        r == as_i32(x as nat),
{
    if x < 0x8000_0000 {
        x as i32
    } else {
        (x as i64 - 0x1_0000_0000) as i32
    }
}

/// Reads a 64-bit pattern as a signed integer in two's complement.
pub fn i64_from_bits(x: u64) -> (r: i64)
    ensures
        r == as_i64(x as nat),
{
    if x < 0x8000_0000_0000_0000 {
        x as i64
    } else {
        (x as i128 - 0x1_0000_0000_0000_0000) as i64
    }
}

/// Reads the `count` bytes of `data` from index `start` on as an unsigned
/// integer, least significant byte first.
pub fn read_le(data: &BytePtr, start: usize, count: usize) -> (v: u64)
    requires
        count <= 8,
        start + count <= data@.len(),
    ensures
        v == le_value(data@, start as int, count as nat),
{
    let ghost bytes = data@;
    let len = data.len();
    let mut v: u64 = 0;
    let mut j: usize = count;
    while j > 0
        invariant
            j <= count <= 8,
            data@ == bytes,
            len == bytes.len(),
            start + count <= bytes.len(),
            v == le_value(bytes, start + j, (count - j) as nat),
        decreases j,
    {
        j = j - 1;
        let byte = data.get(start + j);
        proof {
            lemma_le_value_bound(bytes, start + j + 1, (count - j - 1) as nat);
            lemma_pow2_strictly_increases((8 * (count - j - 1)) as nat, 64);
            lemma_pow2_adds(8, (8 * (count - j - 1)) as nat);
            if count - j < 8 {
                lemma_pow2_strictly_increases((8 * (count - j)) as nat, 64);
            }
            lemma2_to64();
        }
        v = 256 * v + byte as u64;
    }
    v
}

/// The `count` bytes of `x`, least significant byte first.
pub open spec fn le_bytes(x: nat, count: nat) -> Seq<u8>
    decreases count,
{
    if count == 0 {
        Seq::empty()
    } else {
        seq![(x % 256) as u8] + le_bytes(x / 256, (count - 1) as nat)
    }
}

/// The two's complement representation of a 32-bit signed integer.
pub open spec fn bits_i32(v: i32) -> nat {
    if v >= 0 {
        v as nat
    } else {
        (v + 0x1_0000_0000) as nat
    }
}

/// The two's complement representation of a 64-bit signed integer.
pub open spec fn bits_i64(v: i64) -> nat {
    if v >= 0 {
        v as nat
    } else {
        (v + 0x1_0000_0000_0000_0000) as nat
    }
}

/// `le_bytes(x, count)` has `count` bytes.
pub proof fn lemma_le_bytes_len(x: nat, count: nat)
    ensures
        le_bytes(x, count).len() == count,
    decreases count,
{
    if count > 0 {
        lemma_le_bytes_len(x / 256, (count - 1) as nat);
    }
}

/// Reading the bytes of `x` gives `x`, where `x` fits in `count` bytes.
pub proof fn lemma_le_value_of_le_bytes(bytes: Seq<u8>, off: int, x: nat, count: nat)
    requires
        0 <= off,
        off + count <= bytes.len(),
        bytes.subrange(off, off + count) == le_bytes(x, count),
        x < pow2(8 * count),
    ensures
        le_value(bytes, off, count) == x,
    decreases count,
{
    lemma2_to64();
    if count > 0 {
        let rest = le_bytes(x / 256, (count - 1) as nat);
        lemma_le_bytes_len(x / 256, (count - 1) as nat);
        lemma_pow2_adds(8, (8 * (count - 1)) as nat);
        assert(bytes[off] == bytes.subrange(off, off + count)[0]);
        assert(bytes.subrange(off + 1, off + count) =~= rest) by {
            assert forall|j: int| 0 <= j < count - 1 implies bytes.subrange(off + 1, off + count)[j]
                == rest[j] by {
                assert(bytes.subrange(off, off + count)[j + 1] == bytes[off + j + 1]);
            }
        }
        lemma_le_value_of_le_bytes(bytes, off + 1, x / 256, (count - 1) as nat);
    }
}

/// The bytes of the variable-length integer `v`: seven bits per byte, least
/// significant group first; every byte but the last has its top bit set.
pub open spec fn vlq_bytes(v: nat) -> Seq<u8>
    decreases v,
{
    if v < 128 {
        seq![v as u8]
    } else {
        seq![(v % 128 + 128) as u8] + vlq_bytes(v / 128)
    }
}

/// Reading the bytes of `v` within a budget that `v` fits in gives `v`.
pub proof fn lemma_vlq_parse_of_bytes(bytes: Seq<u8>, off: int, v: nat, budget: nat)
    requires
        0 <= off,
        budget >= 1,
        v < pow2(7 * budget),
        off + vlq_bytes(v).len() <= bytes.len(),
        bytes.subrange(off, off + vlq_bytes(v).len()) == vlq_bytes(v),
    ensures
        vlq_parse(bytes, off, budget) == Some((v, vlq_bytes(v).len())),
        1 <= vlq_bytes(v).len() <= budget,
    decreases budget,
{
    lemma2_to64();
    let image = vlq_bytes(v);
    assert(bytes[off] == bytes.subrange(off, off + image.len())[0]);
    if v >= 128 {
        let rest = vlq_bytes(v / 128);
        lemma_pow2_adds(7, (7 * (budget - 1)) as nat);
        if budget == 1 {
            assert(false);
        }
        assert(bytes.subrange(off + 1, off + 1 + rest.len()) =~= rest) by {
            assert forall|j: int| 0 <= j < rest.len() implies bytes.subrange(
                off + 1,
                off + 1 + rest.len(),
            )[j] == rest[j] by {
                assert(bytes.subrange(off, off + image.len())[j + 1] == bytes[off + j + 1]);
            }
        }
        lemma_vlq_parse_of_bytes(bytes, off + 1, v / 128, (budget - 1) as nat);
    }
}

/// Reading the bytes of a 64-bit integer gives the integer and the number
/// of its bytes.
pub proof fn lemma_vlq_round_trip(bytes: Seq<u8>, off: int, v: u64)
    requires
        0 <= off,
        off + vlq_bytes(v as nat).len() <= bytes.len(),
        bytes.subrange(off, off + vlq_bytes(v as nat).len()) == vlq_bytes(v as nat),
    ensures
        vlq_at(bytes, off) == Ok::<(u64, nat), ParquetError>((v, vlq_bytes(v as nat).len())),
        1 <= vlq_bytes(v as nat).len() <= MAX_VLQ_BYTE_LEN,
{
    lemma2_to64();
    lemma_pow2_adds(64, 6);
    lemma_vlq_parse_of_bytes(bytes, off, v as nat, MAX_VLQ_BYTE_LEN as nat);
}

/// The unsigned integer that stands for `x` in ZigZag coding.
pub open spec fn unzigzag(x: i64) -> u64 {
    if x >= 0 {
        (2 * x) as u64
    } else {
        (-2 * x - 1) as u64
    }
}

/// ZigZag decoding inverts ZigZag coding.
pub proof fn lemma_zigzag_round_trip(x: i64)
    ensures
        zigzag(unzigzag(x)) == x,
{
}

/// The concatenation of the parts `part(0)`, ..., `part(n - 1)`.
pub open spec fn concat(n: nat, part: spec_fn(int) -> Seq<u8>) -> Seq<u8>
    decreases n,
{
    if n == 0 {
        Seq::empty()
    } else {
        concat((n - 1) as nat, part) + part(n - 1)
    }
}

/// Part `k` of a concatenation lies behind the parts before it.
pub proof fn lemma_concat_part(n: nat, part: spec_fn(int) -> Seq<u8>, k: nat)
    requires
        k < n,
    ensures
        concat(k + 1, part) == concat(k, part) + part(k as int),
        concat(k + 1, part).len() <= concat(n, part).len(),
        concat(n, part).subrange(
            concat(k, part).len() as int,
            concat(k + 1, part).len() as int,
        ) == part(k as int),
        concat(n, part).take(concat(k + 1, part).len() as int) == concat(k + 1, part),
    decreases n,
{
    let whole = concat(n, part);
    let upto = concat(k + 1, part);
    if k + 1 == n {
        assert(whole.take(upto.len() as int) =~= upto);
    } else {
        lemma_concat_part((n - 1) as nat, part, k);
        let front = concat((n - 1) as nat, part);
        assert(whole.take(upto.len() as int) =~= front.take(upto.len() as int));
    }
    assert(whole.subrange(concat(k, part).len() as int, upto.len() as int) =~= part(k as int)) by {
        assert forall|i: int| 0 <= i < part(k as int).len() implies whole.subrange(
            concat(k, part).len() as int,
            upto.len() as int,
        )[i] == part(k as int)[i] by {
            assert(whole.take(upto.len() as int)[concat(k, part).len() + i] == upto[concat(
                k,
                part,
            ).len() + i]);
        }
    }
}

/// The index of the first byte that starts at or after bit `pos`.
pub open spec fn byte_ceil(pos: nat) -> nat {
    (pos + 7) / 8
}

/// A cursor over the bits of a buffer. It only moves forward.
pub struct BitReader {
    data: BytePtr,
    byte_offset: usize,
    bit_offset: usize,
}

impl BitReader {
    /// The bytes that are read.
    pub closed spec fn bytes(&self) -> Seq<u8> {
        self.data@
    }

    /// The position of the next bit, counted from the start of the buffer.
    pub closed spec fn pos(&self) -> nat {
        (8 * self.byte_offset + self.bit_offset) as nat
    }

    /// The cursor lies within the buffer.
    pub closed spec fn wf(&self) -> bool {
        &&& self.bit_offset < 8
        &&& self.byte_offset <= self.data@.len()
        &&& self.byte_offset == self.data@.len() ==> self.bit_offset == 0
    }

    /// A well-formed cursor is not past the last bit.
    pub proof fn lemma_pos_in_bounds(&self)
        requires
            self.wf(),
        ensures
            self.pos() <= 8 * self.bytes().len(),
    {
    }

    /// A cursor at the first bit of `data`.
    pub fn new(data: BytePtr) -> (r: BitReader)
        ensures
            r.wf(),
            r.bytes() == data@,
            r.pos() == 0,
    {
        BitReader { data, byte_offset: 0, bit_offset: 0 }
    }

    /// Reads the next `num_bits` bits as an unsigned integer, least
    /// significant bit first. Fails, without moving, where fewer bits are
    /// left.
    pub fn get_value(&mut self, num_bits: usize) -> (r: Result<u64, ParquetError>)
        requires
            old(self).wf(),
            num_bits <= 64,
        ensures
            final(self).wf(),
            final(self).bytes() == old(self).bytes(),
            old(self).pos() + num_bits <= 8 * old(self).bytes().len() ==> {
                &&& r == Ok::<u64, ParquetError>(
                    bits_value(old(self).bytes(), old(self).pos() as int, num_bits as nat) as u64,
                )
                &&& final(self).pos() == old(self).pos() + num_bits
            },
            old(self).pos() + num_bits > 8 * old(self).bytes().len() ==> {
                &&& r == Err::<u64, ParquetError>(ParquetError::NotEnoughBytes)
                &&& final(self).pos() == old(self).pos()
            },
    {
        let len = self.data.len();
        let left_bytes = len - self.byte_offset;
        // `num_bits` more bits are there if they end within the buffer.
        let last = self.bit_offset + num_bits;
        let need_bytes = last / 8 + (if last % 8 == 0 {
            0
        } else {
            1
        });
        if need_bytes > left_bytes {
            return Err(ParquetError::NotEnoughBytes);
        }
        let ghost bytes = self.data@;
        let ghost pos = self.pos() as int;
        let mut v: u64 = 0;
        let mut j: usize = num_bits;
        while j > 0
            invariant
                j <= num_bits <= 64,
                self.wf(),
                self.data@ == bytes,
                len == bytes.len(),
                pos == 8 * self.byte_offset + self.bit_offset,
                self.bit_offset < 8,
                pos + num_bits <= 8 * bytes.len(),
                v == bits_value(bytes, pos + j, (num_bits - j) as nat),
            decreases j,
        {
            j = j - 1;
            let at = self.bit_offset + j;
            let byte = self.data.get(self.byte_offset + at / 8);
            let shift: u8 = (at % 8) as u8;
            let bit: u64 = if (byte >> shift) & 1 == 1 {
                1
            } else {
                0
            };
            proof {
                lemma_bits_value_bound(bytes, pos + j + 1, (num_bits - j - 1) as nat);
                if num_bits - j - 1 < 63 {
                    lemma_pow2_strictly_increases((num_bits - j - 1) as nat, 63);
                }
                lemma2_to64();
                lemma2_to64_rest();
                assert((pos + j) / 8 == self.byte_offset + at / 8);
                assert((pos + j) % 8 == at % 8);
            }
            v = 2 * v + bit;
        }
        let first = self.byte_offset + last / 8;
        self.byte_offset = first;
        self.bit_offset = last % 8;
        proof {
            lemma_bits_value_bound(bytes, pos, num_bits as nat);
            if num_bits < 64 {
                lemma_pow2_strictly_increases(num_bits as nat, 64);
            }
            lemma2_to64();
        }
        Ok(v)
    }

    /// The position of the cursor in bytes, rounded up where the cursor
    /// stands inside a byte.
    pub fn get_byte_offset(&self) -> (n: usize)
        requires
            self.wf(),
        ensures
            n == byte_ceil(self.pos()),
            n <= self.bytes().len(),
    {
        let _len = self.data.len();
        if self.bit_offset == 0 {
            self.byte_offset
        } else {
            self.byte_offset + 1
        }
    }

    /// Skips to the next byte boundary and reads `num_bytes` bytes as an
    /// unsigned integer, least significant byte first. Fails, without
    /// moving, where fewer bytes are left.
    pub fn get_aligned(&mut self, num_bytes: usize) -> (r: Result<u64, ParquetError>)
        requires
            old(self).wf(),
            num_bytes <= 8,
        ensures
            final(self).wf(),
            final(self).bytes() == old(self).bytes(),
            byte_ceil(old(self).pos()) + num_bytes <= old(self).bytes().len() ==> {
                &&& r == Ok::<u64, ParquetError>(
                    le_value(
                        old(self).bytes(),
                        byte_ceil(old(self).pos()) as int,
                        num_bytes as nat,
                    ) as u64,
                )
                &&& final(self).pos() == 8 * (byte_ceil(old(self).pos()) + num_bytes)
            },
            byte_ceil(old(self).pos()) + num_bytes > old(self).bytes().len() ==> {
                &&& r == Err::<u64, ParquetError>(ParquetError::NotEnoughBytes)
                &&& final(self).pos() == old(self).pos()
            },
    {
        let start = self.get_byte_offset();
        let len = self.data.len();
        if num_bytes > len - start {
            return Err(ParquetError::NotEnoughBytes);
        }
        let v = read_le(&self.data, start, num_bytes);
        self.byte_offset = start + num_bytes;
        self.bit_offset = 0;
        Ok(v)
    }
    /// Skips to the next byte boundary and reads a variable-length unsigned
    /// integer. Fails, without moving, where `vlq_at` gives an error.
    pub fn get_vlq_int(&mut self) -> (r: Result<u64, ParquetError>)
        requires
            old(self).wf(),
        ensures
            final(self).wf(),
            final(self).bytes() == old(self).bytes(),
            match vlq_at(old(self).bytes(), byte_ceil(old(self).pos()) as int) {
                Ok((v, n)) => r == Ok::<u64, ParquetError>(v) && final(self).pos() == 8 * (
                byte_ceil(old(self).pos()) + n),
                Err(e) => r == Err::<u64, ParquetError>(e) && final(self).pos() == old(self).pos(),
            },
    {
        let start = self.get_byte_offset();
        let len = self.data.len();
        let ghost bytes = self.data@;
        // The bytes that announce a successor.
        let mut n: usize = 0;
        let mut found = false;
        while !found && n < MAX_VLQ_BYTE_LEN && n < len - start
            invariant
                self.data@ == bytes,
                len == bytes.len(),
                start <= len,
                n <= MAX_VLQ_BYTE_LEN,
                n <= len - start,
                forall|i: int| start <= i < start + n ==> bytes[i] >= 128,
                found ==> n < MAX_VLQ_BYTE_LEN && n < len - start && bytes[start + n] < 128,
            decreases MAX_VLQ_BYTE_LEN - n + (if found { 0int } else { 1int }),
        {
            if self.data.get(start + n) < 128 {
                found = true;
            } else {
                n = n + 1;
            }
        }
        if !found {
            proof {
                lemma_vlq_parse_none(bytes, start as int, MAX_VLQ_BYTE_LEN as nat, n as nat);
            }
            if len - start >= MAX_VLQ_BYTE_LEN {
                return Err(ParquetError::BadHeader);
            } else {
                return Err(ParquetError::NotEnoughBytes);
            }
        }
        let mut v: u128 = self.data.get(start + n) as u128;
        let mut j: usize = n;
        while j > 0
            invariant
                self.data@ == bytes,
                len == bytes.len(),
                j <= n < MAX_VLQ_BYTE_LEN,
                start + n < len,
                forall|i: int| start <= i < start + n ==> bytes[i] >= 128,
                vlq_parse(bytes, start + j, (MAX_VLQ_BYTE_LEN - j) as nat) == Some(
                    (v as nat, (n + 1 - j) as nat),
                ),
            decreases j,
        {
            proof {
                lemma_vlq_parse_bound(bytes, start + j, (MAX_VLQ_BYTE_LEN - j) as nat);
                lemma_pow2_adds(64, 6);
                lemma2_to64();
                if n + 1 - j < 10 {
                    lemma_pow2_strictly_increases((7 * (n + 1 - j)) as nat, 70);
                }
                assert(bytes[start + (j - 1)] >= 128);
            }
            j = j - 1;
            let byte = self.data.get(start + j);
            v = (byte - 128) as u128 + 128 * v;
        }
        if v > u64::MAX as u128 {
            return Err(ParquetError::BadHeader);
        }
        self.byte_offset = start + n + 1;
        self.bit_offset = 0;
        Ok(v as u64)
    }

    /// Skips to the next byte boundary and reads a variable-length signed
    /// integer in ZigZag coding.
    pub fn get_zigzag_vlq_int(&mut self) -> (r: Result<i64, ParquetError>)
        requires
            old(self).wf(),
        ensures
            final(self).wf(),
            final(self).bytes() == old(self).bytes(),
            match vlq_at(old(self).bytes(), byte_ceil(old(self).pos()) as int) {
                Ok((v, n)) => r == Ok::<i64, ParquetError>(zigzag(v)) && final(self).pos() == 8 * (
                byte_ceil(old(self).pos()) + n),
                Err(e) => r == Err::<i64, ParquetError>(e) && final(self).pos() == old(self).pos(),
            },
    {
        match self.get_vlq_int() {
            Ok(v) => Ok(zigzag_decode(v)),
            Err(e) => Err(e),
        }
    }
}

} // verus!
