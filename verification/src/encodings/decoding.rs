//! Decoders for the values of data pages.
use crate::basic::{
    ByteArray, ByteArrayType, DataType, Datum, Encoding, Int64Type, Int96, Type, Value,
};
use crate::encodings::delta::{
    delta_open, delta_page, int64s, lemma_delta_run_keeps_page, length_open, prefix_open,
    wrapping_sum, DeltaCursor, LengthCursor, PrefixCursor, MAX_DELTA_BIT_WIDTH,
};
use crate::encodings::plain::PlainCursor;
use crate::encodings::rle_encoding::{
    dict_view, DictCursor, LevelCursor, RawRleDecoder, RleCursor, MAX_BIT_WIDTH,
};
use crate::encodings::stream::{drain, lemma_run_len, run, Cursor, Source, Step};
use crate::errors::ParquetError;
use crate::schema::ColumnDescPtr;
use crate::util::bit_util::{
    bits_value, byte_ceil, ceil_log2, i32_from_bits, i64_from_bits, le_value,
    lemma_bits_value_bound, lemma_le_value_bound, lemma_vlq_parse_bound, log2, read_le,
    BitReader, MAX_VLQ_BYTE_LEN,
};
use crate::util::memory::BytePtr;
use std::marker::PhantomData;
use vstd::arithmetic::power2::{lemma2_to64, lemma_pow2_strictly_increases};
use vstd::prelude::*;

verus! {

/// The number of values that a call for at most `max_values` delivers when
/// `left` values are left.
pub open spec fn chunk(max_values: nat, left: nat) -> nat {
    if max_values <= left {
        max_values
    } else {
        left
    }
}

/// A decoder of the values of one page. It is bound to a page with
/// `set_data` and drained with `decode`, in chunks of any size.
pub trait Decoder<T: DataType> {
    /// The model of a position in a page of this encoding.
    type State: Cursor;

    /// The representation invariant.
    spec fn wf(&self) -> bool;

    /// Whether the encoding can carry values of type `T`.
    spec fn supported(&self) -> bool;

    /// Whether everything that `decode` needs beside a page is in place.
    spec fn armed(&self) -> bool;

    /// Whether a page is bound and values can be pulled.
    spec fn is_set(&self) -> bool;

    /// The position in the page.
    spec fn state(&self) -> Self::State;

    /// The number of values that are left to decode.
    spec fn left(&self) -> nat;

    /// What binding a page of `data` that is declared to hold `num_values`
    /// values gives: the position of the first value and the number of
    /// values, or the error.
    spec fn bind(&self, data: Seq<u8>, num_values: nat) -> Result<(Self::State, nat), ParquetError>;

    /// The encoding that this decoder reads.
    spec fn kind(&self) -> Encoding;

    /// The number of bytes that the page spans, where the encoding records it.
    spec fn page_bytes(&self) -> Option<nat>;

    /// Binds the page `data`, which is declared to hold `num_values` values.
    fn set_data(&mut self, data: BytePtr, num_values: usize) -> (r: Result<(), ParquetError>)
        requires
            old(self).wf(),
        ensures
            final(self).wf(),
            final(self).armed() == old(self).armed(),
            final(self).supported() == old(self).supported(),
            match old(self).bind(data@, num_values as nat) {
                Ok((s, n)) => {
                    &&& r is Ok
                    &&& final(self).state() == s
                    &&& final(self).left() == n
                    &&& final(self).is_set() == old(self).armed()
                },
                Err(e) => r matches Err(x) && x == e,
            },
    ;

    /// Decodes the next `chunk(max_values, left)` values into the first
    /// places of `buffer` and moves behind them. The other places of `buffer`
    /// keep what they held. Where one of these values cannot be read, the
    /// call fails with the error of the first that cannot; what `buffer` and
    /// the position are after an error is not specified.
    fn decode(&mut self, buffer: &mut [T::T], max_values: usize) -> (r: Result<usize, ParquetError>)
        requires
            old(self).wf(),
            old(self).supported() ==> old(self).is_set(),
            old(buffer)@.len() >= max_values,
        ensures
            final(self).wf(),
            final(self).armed() == old(self).armed(),
            final(self).is_set() == old(self).is_set(),
            final(buffer)@.len() == old(buffer)@.len(),
            final(self).supported() == old(self).supported(),
            !old(self).supported() ==> r == Err::<usize, ParquetError>(ParquetError::Unsupported),
            old(self).supported() ==> match run(
                old(self).state(),
                chunk(max_values as nat, old(self).left()),
            ).failure {
                None => {
                    let k = chunk(max_values as nat, old(self).left());
                    let out = run(old(self).state(), k);
                    &&& r matches Ok(n) && n == k
                    &&& final(self).state() == out.state
                    &&& final(self).left() == old(self).left() - k
                    &&& forall|i: int|
                        0 <= i < k ==> T::datum(#[trigger] final(buffer)@[i]) == out.values[i]
                    &&& forall|i: int|
                        k <= i < old(buffer)@.len() ==> final(buffer)@[i] == old(buffer)@[i]
                },
                Some(e) => r matches Err(x) && x == e,
            },
            old(self).supported() && max_values == 0 ==> {
                &&& r matches Ok(n) && n == 0
                &&& final(self).state() == old(self).state()
                &&& final(self).left() == old(self).left()
                &&& final(buffer)@ == old(buffer)@
            },
    ;

    /// The number of values that are left to decode.
    fn values_left(&self) -> (n: usize)
        requires
            self.wf(),
        ensures
            n == self.left(),
    ;

    /// Whether `decode` may be called: a page is bound, or the encoding
    /// cannot carry values of type `T` at all.
    fn can_decode(&self) -> (b: bool)
        requires
            self.wf(),
        ensures
            b == (self.supported() ==> self.is_set()),
    ;

    /// The encoding that this decoder reads.
    fn encoding(&self) -> (e: Encoding)
        ensures
            e == self.kind(),
    ;

    /// The number of bytes that the page spans, where the encoding records
    /// it; `Unsupported` where it does not.
    fn total_bytes(&self) -> (r: Result<usize, ParquetError>)
        requires
            self.wf(),
        ensures
            match self.page_bytes() {
                Some(n) => r matches Ok(x) && x == n,
                None => r matches Err(x) && x == ParquetError::Unsupported,
            },
    ;
}

/// The role of the values of a page.
#[allow(non_camel_case_types)]
#[derive(Clone, Copy, Debug, PartialEq, Eq, Structural)]
pub enum ValueType {
    DEF_LEVEL,
    REP_LEVEL,
    VALUE,
}

// ----------------------------------------------------------------------
// PLAIN

/// The decoder of PLAIN pages.
pub struct PlainDecoder<T: DataType> {
    // The number of values that are left.
    num_values: usize,
    // The index in `data` of the next value; not used for BOOLEAN.
    start: usize,
    // The length of each value of a fixed-length byte array column.
    type_length: i32,
    // The page.
    data: Option<BytePtr>,
    // The cursor in the bits of the page; only set for BOOLEAN.
    bit_reader: Option<BitReader>,
    _phantom: PhantomData<T>,
}

impl<T: DataType> PlainDecoder<T> {
    /// The bytes of the page; none before a page is bound.
    pub closed spec fn bytes(&self) -> Seq<u8> {
        match self.data {
            Some(d) => d@,
            None => Seq::empty(),
        }
    }

    /// The position of the next value: a bit index for BOOLEAN, a byte index
    /// for every other type.
    pub closed spec fn pos(&self) -> nat {
        if T::physical_type() == Type::BOOLEAN {
            match self.bit_reader {
                Some(r) => r.pos(),
                None => 0,
            }
        } else {
            self.start as nat
        }
    }

    /// The length of each value of a fixed-length byte array column.
    pub closed spec fn spec_type_length(&self) -> int {
        self.type_length as int
    }

    /// A decoder without a page. `type_length` is the length of each value
    /// of a fixed-length byte array column; other columns do not read it.
    pub fn new(type_length: i32) -> (r: Self)
        ensures
            r.wf(),
            !r.is_set(),
            r.armed(),
            r.left() == 0,
            r.spec_type_length() == type_length,
    {
        PlainDecoder {
            data: None,
            bit_reader: None,
            type_length,
            num_values: 0,
            start: 0,
            _phantom: PhantomData,
        }
    }
}

impl<T: DataType> Source<T> for PlainDecoder<T> {
    type State = PlainCursor;

    closed spec fn primed(&self) -> bool {
        &&& self.data is Some
        &&& self.start <= self.data->0@.len()
        &&& T::physical_type() == Type::BOOLEAN ==> {
            &&& self.bit_reader is Some
            &&& self.bit_reader->0.wf()
            &&& self.bit_reader->0.bytes() == self.data->0@
        }
    }

    closed spec fn cursor(&self) -> PlainCursor {
        PlainCursor {
            ty: T::physical_type(),
            type_length: self.type_length as int,
            bytes: self.bytes(),
            pos: self.pos(),
        }
    }

    fn read_value(&mut self) -> (r: Result<T::T, ParquetError>) {
        let ghost expected = self.cursor().step();
        let value = match T::get_physical_type() {
            Type::BOOLEAN => {
                proof {
                    reveal_with_fuel(bits_value, 2);
                    self.bit_reader->0.lemma_pos_in_bounds();
                }
                match self.bit_reader.as_mut() {
                    Some(reader) => match reader.get_value(1) {
                        Ok(v) => Value::Bool(v == 1),
                        Err(e) => {
                            return Err(e);
                        },
                    },
                    None => {
                        return Err(ParquetError::NotEnoughBytes);
                    },
                }
            },
            Type::BYTE_ARRAY => {
                let data = match self.data.as_ref() {
                    Some(d) => d,
                    None => {
                        return Err(ParquetError::NotEnoughBytes);
                    },
                };
                let len = data.len();
                if len - self.start < 4 {
                    return Err(ParquetError::NotEnoughBytes);
                }
                let n = read_le(data, self.start, 4);
                proof {
                    lemma_le_value_bound(data@, self.start as int, 4);
                    lemma2_to64();
                }
                if n > (len - self.start - 4) as u64 {
                    return Err(ParquetError::NotEnoughBytes);
                }
                let n = n as usize;
                let mut b = ByteArray::new();
                b.set_data(data.range(self.start + 4, n));
                self.start = self.start + 4 + n;
                Value::Bytes(b)
            },
            ty => {
                let data = match self.data.as_ref() {
                    Some(d) => d,
                    None => {
                        return Err(ParquetError::NotEnoughBytes);
                    },
                };
                let width: usize = match ty {
                    Type::INT32 | Type::FLOAT => 4,
                    Type::INT64 | Type::DOUBLE => 8,
                    Type::INT96 => 12,
                    _ => {
                        if self.type_length <= 0 {
                            return Err(ParquetError::BadHeader);
                        }
                        self.type_length as usize
                    },
                };
                let len = data.len();
                if len - self.start < width {
                    return Err(ParquetError::NotEnoughBytes);
                }
                let at = self.start;
                proof {
                    lemma2_to64();
                    if width >= 4 {
                        lemma_le_value_bound(data@, at as int, 4);
                    }
                    if width >= 12 {
                        lemma_le_value_bound(data@, at + 4, 4);
                        lemma_le_value_bound(data@, at + 8, 4);
                    }
                }
                let v = match ty {
                    Type::INT32 => Value::Int32(i32_from_bits(read_le(data, at, 4) as u32)),
                    Type::INT64 => Value::Int64(i64_from_bits(read_le(data, at, 8))),
                    Type::FLOAT => Value::Float(read_le(data, at, 4) as u32),
                    Type::DOUBLE => Value::Double(read_le(data, at, 8)),
                    Type::INT96 => Value::Int96(
                        Int96 {
                            w0: read_le(data, at, 4) as u32,
                            w1: read_le(data, at + 4, 4) as u32,
                            w2: read_le(data, at + 8, 4) as u32,
                        },
                    ),
                    _ => {
                        let mut b = ByteArray::new();
                        b.set_data(data.range(at, width));
                        Value::Bytes(b)
                    },
                };
                self.start = at + width;
                v
            },
        };
        match T::from_value(value) {
            Some(v) => Ok(v),
            None => Err(ParquetError::Unsupported),
        }
    }
}

impl<T: DataType> Decoder<T> for PlainDecoder<T> {
    type State = PlainCursor;

    closed spec fn wf(&self) -> bool {
        self.data is Some ==> self.primed()
    }

    /// Every physical type has a PLAIN layout.
    open spec fn supported(&self) -> bool {
        true
    }

    open spec fn armed(&self) -> bool {
        true
    }

    closed spec fn is_set(&self) -> bool {
        self.data is Some
    }

    closed spec fn state(&self) -> PlainCursor {
        self.cursor()
    }

    closed spec fn left(&self) -> nat {
        self.num_values as nat
    }

    /// The first value starts at the first byte; the page holds as many
    /// values as it is declared to hold.
    open spec fn bind(&self, data: Seq<u8>, num_values: nat) -> Result<
        (PlainCursor, nat),
        ParquetError,
    > {
        Ok(
            (
                PlainCursor {
                    ty: T::physical_type(),
                    type_length: self.spec_type_length(),
                    bytes: data,
                    pos: 0,
                },
                num_values,
            ),
        )
    }

    open spec fn kind(&self) -> Encoding {
        Encoding::PLAIN
    }

    open spec fn page_bytes(&self) -> Option<nat> {
        None
    }

    fn set_data(&mut self, data: BytePtr, num_values: usize) -> (r: Result<(), ParquetError>) {
        self.num_values = num_values;
        self.start = 0;
        match T::get_physical_type() {
            Type::BOOLEAN => {
                self.bit_reader = Some(BitReader::new(data.all()));
            },
            _ => {
                self.bit_reader = None;
            },
        }
        self.data = Some(data);
        Ok(())
    }

    fn decode(&mut self, buffer: &mut [T::T], max_values: usize) -> (r: Result<
        usize,
        ParquetError,
    >) {
        let count = if max_values <= self.num_values {
            max_values
        } else {
            self.num_values
        };
        if count == 0 {
            assert(run(self.state(), 0).failure is None);
            return Ok(0);
        }
        let rest = self.num_values - count;
        match drain(self, buffer, count) {
            Ok(()) => {},
            Err(e) => {
                return Err(e);
            },
        }
        self.num_values = rest;
        Ok(count)
    }

    fn can_decode(&self) -> (b: bool) {
        self.data.is_some()
    }

    fn values_left(&self) -> (n: usize) {
        self.num_values
    }

    fn encoding(&self) -> (e: Encoding) {
        Encoding::PLAIN
    }

    fn total_bytes(&self) -> (r: Result<usize, ParquetError>) {
        Err(ParquetError::Unsupported)
    }
}

// ----------------------------------------------------------------------
// PLAIN_DICTIONARY

/// The decoder of pages of indices into a dictionary. The first byte of a
/// page is the bit width of the indices; runs of indices follow.
pub struct DictDecoder<T: DataType> {
    // The dictionary: the value at each index.
    dictionary: Vec<T::T>,
    // Whether the dictionary has been set.
    has_dictionary: bool,
    // The decoder of the indices.
    rle_decoder: Option<RawRleDecoder>,
    // The number of values that are left.
    num_values: usize,
}

impl<T: DataType> DictDecoder<T> {
    /// The values of the dictionary.
    pub closed spec fn entries(&self) -> Seq<Datum> {
        dict_view::<T>(self.dictionary@)
    }

    /// A decoder without a dictionary and without a page.
    pub fn new() -> (r: Self)
        ensures
            r.wf(),
            !r.armed(),
            !r.is_set(),
            r.left() == 0,
            r.entries() == Seq::<Datum>::empty(),
    {
        let r = DictDecoder {
            dictionary: Vec::new(),
            has_dictionary: false,
            rle_decoder: None,
            num_values: 0,
        };
        assert(r.entries() =~= Seq::<Datum>::empty());
        r
    }

    /// Sets the dictionary to the values that are left in `decoder`, in
    /// their order. Where `decoder` fails, the dictionary stays as it is.
    pub fn set_dict<D: Decoder<T>>(&mut self, decoder: D) -> (r: Result<(), ParquetError>)
        requires
            old(self).wf(),
            decoder.wf(),
            decoder.supported() ==> decoder.is_set(),
        ensures
            final(self).wf(),
            final(self).state().rle == old(self).state().rle,
            final(self).left() == old(self).left(),
            !decoder.supported() ==> r == Err::<(), ParquetError>(ParquetError::Unsupported),
            decoder.supported() ==> match run(decoder.state(), decoder.left()).failure {
                None => {
                    &&& r is Ok
                    &&& final(self).armed()
                    &&& final(self).entries() == run(decoder.state(), decoder.left()).values
                    &&& final(self).is_set() == (old(self).is_set() || (!old(self).armed()
                        && old(self).bound()))
                },
                Some(e) => r == Err::<(), ParquetError>(e),
            },
            r is Err ==> {
                &&& final(self).entries() == old(self).entries()
                &&& final(self).armed() == old(self).armed()
                &&& final(self).is_set() == old(self).is_set()
            },
    {
        let mut decoder = decoder;
        let num_values = decoder.values_left();
        let mut values: Vec<T::T> = Vec::new();
        let mut i: usize = 0;
        while i < num_values
            invariant
                i <= num_values,
                values@.len() == i,
            decreases num_values - i,
        {
            values.push(T::zero());
            i += 1;
        }
        let ghost expected = run(decoder.state(), decoder.left());
        proof {
            lemma_run_len(decoder.state(), decoder.left());
        }
        match decoder.decode(values.as_mut_slice(), num_values) {
            Ok(_) => {},
            Err(e) => {
                return Err(e);
            },
        }
        self.dictionary = values;
        self.has_dictionary = true;
        assert(self.entries() =~= expected.values);
        Ok(())
    }

    /// Whether a page is bound, with or without a dictionary.
    pub closed spec fn bound(&self) -> bool {
        self.rle_decoder is Some && self.rle_decoder->0.is_set()
    }
}

impl<T: DataType> Decoder<T> for DictDecoder<T> {
    type State = DictCursor;

    closed spec fn wf(&self) -> bool {
        self.rle_decoder is Some ==> self.rle_decoder->0.is_set()
    }

    /// A dictionary holds values of any type.
    open spec fn supported(&self) -> bool {
        true
    }

    /// The dictionary has been set.
    closed spec fn armed(&self) -> bool {
        self.has_dictionary
    }

    closed spec fn is_set(&self) -> bool {
        self.has_dictionary && self.bound()
    }

    closed spec fn state(&self) -> DictCursor {
        DictCursor {
            dict: self.entries(),
            rle: match self.rle_decoder {
                Some(d) => d.position(),
                None => RleCursor::start(Seq::empty(), 0),
            },
        }
    }

    closed spec fn left(&self) -> nat {
        self.num_values as nat
    }

    /// The first byte is the bit width of the indices, at most
    /// `MAX_BIT_WIDTH`; the runs start behind it. The page holds as many
    /// values as it is declared to hold.
    open spec fn bind(&self, data: Seq<u8>, num_values: nat) -> Result<
        (DictCursor, nat),
        ParquetError,
    > {
        if data.len() == 0 {
            Err(ParquetError::NotEnoughBytes)
        } else if data[0] > MAX_BIT_WIDTH {
            Err(ParquetError::BadHeader)
        } else {
            Ok(
                (
                    DictCursor {
                        dict: self.entries(),
                        rle: RleCursor::start(data.skip(1), data[0] as nat),
                    },
                    num_values,
                ),
            )
        }
    }

    /// Both dictionary encodings share this decoder.
    open spec fn kind(&self) -> Encoding {
        Encoding::PLAIN_DICTIONARY
    }

    open spec fn page_bytes(&self) -> Option<nat> {
        None
    }

    fn set_data(&mut self, data: BytePtr, num_values: usize) -> (r: Result<(), ParquetError>) {
        if data.len() == 0 {
            return Err(ParquetError::NotEnoughBytes);
        }
        let bit_width = data.get(0) as usize;
        if bit_width > MAX_BIT_WIDTH {
            return Err(ParquetError::BadHeader);
        }
        let mut rle_decoder = RawRleDecoder::new(bit_width);
        rle_decoder.set_data(data.start_from(1));
        self.num_values = num_values;
        self.rle_decoder = Some(rle_decoder);
        Ok(())
    }

    fn decode(&mut self, buffer: &mut [T::T], max_values: usize) -> (r: Result<
        usize,
        ParquetError,
    >) {
        let count = if max_values <= self.num_values {
            max_values
        } else {
            self.num_values
        };
        if count == 0 {
            assert(run(self.state(), 0).failure is None);
            return Ok(0);
        }
        let ghost expected = run(self.state(), count as nat);
        match self.rle_decoder.as_mut() {
            Some(rle) => match rle.decode_with_dict::<T>(
                self.dictionary.as_slice(),
                buffer,
                count,
            ) {
                Ok(_) => {},
                Err(e) => {
                    return Err(e);
                },
            },
            None => {
                return Err(ParquetError::NotEnoughBytes);
            },
        }
        self.num_values = self.num_values - count;
        Ok(count)
    }

    fn can_decode(&self) -> (b: bool) {
        self.has_dictionary && self.rle_decoder.is_some()
    }

    fn values_left(&self) -> (n: usize) {
        self.num_values
    }

    fn encoding(&self) -> (e: Encoding) {
        Encoding::PLAIN_DICTIONARY
    }

    fn total_bytes(&self) -> (r: Result<usize, ParquetError>) {
        Err(ParquetError::Unsupported)
    }
}

// ----------------------------------------------------------------------
// RLE

/// The number of bytes of the length that an RLE page starts with.
pub const RLE_PREFIX_BYTES: usize = 4;

/// The decoder of RLE pages, which hold definition and repetition levels.
/// A page starts with the number of bytes of its runs, as a 32-bit signed
/// integer; the runs follow. Only 32-bit integers are read.
pub struct RleDecoder<T: DataType> {
    bit_width: usize,
    decoder: RawRleDecoder,
    num_values: usize,
    total_bytes: usize,
    _phantom: PhantomData<T>,
}

impl<T: DataType> RleDecoder<T> {
    /// The number of bits of each value.
    pub closed spec fn spec_bit_width(&self) -> nat {
        self.bit_width as nat
    }

    /// The number of bytes of the bound page: the length that it starts
    /// with and the bytes of its runs. Zero before a page is bound.
    pub closed spec fn spec_total_bytes(&self) -> nat {
        self.total_bytes as nat
    }

    /// A decoder of values of `bit_width` bits, without a page.
    pub fn new(bit_width: usize) -> (r: Self)
        ensures
            r.wf(),
            !r.is_set(),
            r.left() == 0,
            r.spec_bit_width() == bit_width,
            r.spec_total_bytes() == 0,
    {
        RleDecoder {
            bit_width,
            decoder: RawRleDecoder::new(bit_width),
            num_values: 0,
            total_bytes: 0,
            _phantom: PhantomData,
        }
    }
}

impl<T: DataType> Decoder<T> for RleDecoder<T> {
    type State = LevelCursor;

    closed spec fn wf(&self) -> bool {
        &&& self.total_bytes <= RLE_PREFIX_BYTES + 0x7fff_ffff
        &&& self.decoder.wf()
    }

    /// Only 32-bit integers are read from RLE pages.
    open spec fn supported(&self) -> bool {
        T::physical_type() == Type::INT32
    }

    open spec fn armed(&self) -> bool {
        true
    }

    closed spec fn is_set(&self) -> bool {
        self.decoder.is_set()
    }

    closed spec fn state(&self) -> LevelCursor {
        LevelCursor { ty: T::physical_type(), rle: self.decoder.position() }
    }

    closed spec fn left(&self) -> nat {
        self.num_values as nat
    }

    /// The page starts with a length of four bytes, which is not negative as
    /// a signed integer; the runs start behind it. The page holds as many
    /// values as it is declared to hold.
    open spec fn bind(&self, data: Seq<u8>, num_values: nat) -> Result<
        (LevelCursor, nat),
        ParquetError,
    > {
        if T::physical_type() != Type::INT32 {
            Err(ParquetError::Unsupported)
        } else if data.len() < RLE_PREFIX_BYTES {
            Err(ParquetError::NotEnoughBytes)
        } else if le_value(data, 0, RLE_PREFIX_BYTES as nat) > 0x7fff_ffff {
            Err(ParquetError::BadHeader)
        } else {
            Ok(
                (
                    LevelCursor {
                        ty: T::physical_type(),
                        rle: RleCursor::start(
                            data.skip(RLE_PREFIX_BYTES as int),
                            self.spec_bit_width(),
                        ),
                    },
                    num_values,
                ),
            )
        }
    }

    open spec fn kind(&self) -> Encoding {
        Encoding::RLE
    }

    open spec fn page_bytes(&self) -> Option<nat> {
        if T::physical_type() == Type::INT32 {
            Some(self.spec_total_bytes())
        } else {
            None
        }
    }

    fn set_data(&mut self, data: BytePtr, num_values: usize) -> (r: Result<(), ParquetError>)
        ensures
            r is Ok ==> final(self).spec_total_bytes() == RLE_PREFIX_BYTES + le_value(
                data@,
                0,
                RLE_PREFIX_BYTES as nat,
            ),
            final(self).spec_bit_width() == old(self).spec_bit_width(),
    {
        match T::get_physical_type() {
            Type::INT32 => {},
            _ => {
                return Err(ParquetError::Unsupported);
            },
        }
        if data.len() < RLE_PREFIX_BYTES {
            return Err(ParquetError::NotEnoughBytes);
        }
        let num_bytes = read_le(&data, 0, RLE_PREFIX_BYTES);
        if num_bytes > 0x7fff_ffff {
            return Err(ParquetError::BadHeader);
        }
        let mut decoder = RawRleDecoder::new(self.bit_width);
        decoder.set_data(data.start_from(RLE_PREFIX_BYTES));
        self.decoder = decoder;
        self.num_values = num_values;
        self.total_bytes = RLE_PREFIX_BYTES + num_bytes as usize;
        Ok(())
    }

    fn decode(&mut self, buffer: &mut [T::T], max_values: usize) -> (r: Result<
        usize,
        ParquetError,
    >) {
        match T::get_physical_type() {
            Type::INT32 => {},
            _ => {
                return Err(ParquetError::Unsupported);
            },
        }
        let count = if max_values <= self.num_values {
            max_values
        } else {
            self.num_values
        };
        if count == 0 {
            assert(run(self.state(), 0).failure is None);
            return Ok(0);
        }
        let ghost expected = run(self.state(), count as nat);
        match self.decoder.decode::<T>(buffer, count) {
            Ok(_) => {},
            Err(e) => {
                return Err(e);
            },
        }
        self.num_values = self.num_values - count;
        Ok(count)
    }

    fn can_decode(&self) -> (b: bool) {
        match T::get_physical_type() {
            Type::INT32 => self.decoder.has_data(),
            _ => true,
        }
    }

    fn values_left(&self) -> (n: usize) {
        self.num_values
    }

    fn encoding(&self) -> (e: Encoding) {
        Encoding::RLE
    }

    fn total_bytes(&self) -> (r: Result<usize, ParquetError>) {
        match T::get_physical_type() {
            Type::INT32 => Ok(self.total_bytes),
            _ => Err(ParquetError::Unsupported),
        }
    }
}

// ----------------------------------------------------------------------
// DELTA_BINARY_PACKED

/// The decoder of DELTA_BINARY_PACKED pages. The number of values is read
/// from the page. Only 64-bit integers are read.
pub struct DeltaBitPackDecoder<T: DataType> {
    bit_reader: Option<BitReader>,
    // Header of the page.
    num_values: usize,
    num_mini_blocks: u64,
    values_per_mini_block: u64,
    first_value: i64,
    first_value_read: bool,
    // Header of the current block.
    min_delta: i64,
    delta_bit_widths: Vec<u8>,
    // The current mini-block and the number of values that are left in it.
    mini_block_idx: usize,
    values_current_mini_block: u64,
    // The value that was delivered last.
    current_value: i64,
    _phantom: PhantomData<T>,
}

impl<T: DataType> DeltaBitPackDecoder<T> {
    /// A decoder without a page.
    pub fn new() -> (r: Self)
        ensures
            r.wf(),
            !r.is_set(),
            r.left() == 0,
    {
        DeltaBitPackDecoder {
            bit_reader: None,
            num_values: 0,
            num_mini_blocks: 0,
            values_per_mini_block: 0,
            first_value: 0,
            first_value_read: false,
            min_delta: 0,
            delta_bit_widths: Vec::new(),
            mini_block_idx: 0,
            values_current_mini_block: 0,
            current_value: 0,
            _phantom: PhantomData,
        }
    }

    /// The index of the first byte behind what has been read. Behind the
    /// last value, this is where the data that follows the page starts.
    pub fn get_offset(&self) -> (n: usize)
        requires
            self.wf(),
            self.is_set(),
        ensures
            n == byte_ceil(self.state().pos),
            n <= self.state().bytes.len(),
    {
        match self.bit_reader.as_ref() {
            Some(reader) => reader.get_byte_offset(),
            None => 0,
        }
    }

    /// Reads the header of the next block.
    fn init_block(&mut self) -> (r: Result<(), ParquetError>)
        requires
            old(self).primed(),
        ensures
            final(self).primed(),
            match old(self).cursor().init_block() {
                Ok(c) => r is Ok && final(self).cursor() == c,
                Err(e) => r == Err::<(), ParquetError>(e),
            },
    {
        let count = self.num_mini_blocks;
        let reader = match self.bit_reader.as_mut() {
            Some(r) => r,
            None => {
                return Err(ParquetError::NotEnoughBytes);
            },
        };
        let ghost bytes = reader.bytes();
        let ghost at = byte_ceil(reader.pos());
        proof {
            lemma_vlq_parse_bound(bytes, at as int, MAX_VLQ_BYTE_LEN as nat);
        }
        let min_delta = match reader.get_zigzag_vlq_int() {
            Ok(v) => v,
            Err(e) => {
                return Err(e);
            },
        };
        let ghost first = byte_ceil(reader.pos());
        let mut widths: Vec<u8> = Vec::new();
        let mut i: u64 = 0;
        let mut complete = true;
        while complete && i < count
            invariant
                i <= count,
                reader.wf(),
                reader.bytes() == bytes,
                reader.pos() == 8 * (first + i),
                first + i <= bytes.len(),
                widths@ == bytes.subrange(first as int, first + i),
                !complete ==> i < count && first + i + 1 > bytes.len(),
            decreases count - i + (if complete { 1int } else { 0int }),
        {
            proof {
                reveal_with_fuel(le_value, 2);
            }
            match reader.get_aligned(1) {
                Ok(w) => {
                    widths.push(w as u8);
                    assert(widths@ =~= bytes.subrange(first as int, first + i + 1));
                    i += 1;
                },
                Err(_) => {
                    complete = false;
                },
            }
        }
        if !complete {
            return Err(ParquetError::NotEnoughBytes);
        }
        self.min_delta = min_delta;
        self.delta_bit_widths = widths;
        self.mini_block_idx = 0;
        self.values_current_mini_block = self.values_per_mini_block;
        Ok(())
    }
}

impl<T: DataType> Source<T> for DeltaBitPackDecoder<T> {
    type State = DeltaCursor;

    closed spec fn primed(&self) -> bool {
        &&& self.bit_reader is Some
        &&& self.bit_reader->0.wf()
    }

    closed spec fn cursor(&self) -> DeltaCursor {
        DeltaCursor {
            ty: T::physical_type(),
            bytes: match self.bit_reader {
                Some(r) => r.bytes(),
                None => Seq::empty(),
            },
            pos: match self.bit_reader {
                Some(r) => r.pos(),
                None => 0,
            },
            num_mini_blocks: self.num_mini_blocks as nat,
            values_per_mini_block: self.values_per_mini_block as nat,
            first_value: self.first_value,
            first_read: self.first_value_read,
            min_delta: self.min_delta,
            widths: self.delta_bit_widths@,
            mini_idx: self.mini_block_idx as nat,
            mini_left: self.values_current_mini_block as nat,
            current: self.current_value,
        }
    }

    fn read_value(&mut self) -> (r: Result<T::T, ParquetError>) {
        let ghost begin = self.cursor();
        let ghost expected = begin.step();
        match T::get_physical_type() {
            Type::INT64 => {},
            _ => {
                return Err(ParquetError::Unsupported);
            },
        }
        if !self.first_value_read {
            self.first_value_read = true;
            self.current_value = self.first_value;
        } else {
            if self.values_current_mini_block == 0 {
                if self.mini_block_idx < self.delta_bit_widths.len() && self.mini_block_idx + 1
                    < self.delta_bit_widths.len() {
                    self.mini_block_idx = self.mini_block_idx + 1;
                    self.values_current_mini_block = self.values_per_mini_block;
                } else {
                    match self.init_block() {
                        Ok(()) => {},
                        Err(e) => {
                            return Err(e);
                        },
                    }
                }
            }
            assert(begin.enter_mini_block() == Ok::<DeltaCursor, ParquetError>(self.cursor()));
            if self.values_current_mini_block == 0 || self.mini_block_idx
                >= self.delta_bit_widths.len() {
                return Err(ParquetError::BadHeader);
            }
            let width = self.delta_bit_widths[self.mini_block_idx];
            if width > MAX_DELTA_BIT_WIDTH {
                return Err(ParquetError::BadHeader);
            }
            let ghost here = self.cursor();
            proof {
                lemma_bits_value_bound(here.bytes, here.pos as int, width as nat);
                if width < 64 {
                    lemma_pow2_strictly_increases(width as nat, 64);
                }
                lemma2_to64();
            }
            let delta = match self.bit_reader.as_mut() {
                Some(reader) => match reader.get_value(width as usize) {
                    Ok(v) => v,
                    Err(e) => {
                        proof {
                            reader.lemma_pos_in_bounds();
                        }
                        return Err(e);
                    },
                },
                None => {
                    return Err(ParquetError::NotEnoughBytes);
                },
            };
            self.current_value = wrapping_sum(self.current_value, self.min_delta, delta);
            self.values_current_mini_block = self.values_current_mini_block - 1;
        }
        match T::from_value(Value::Int64(self.current_value)) {
            Some(v) => Ok(v),
            None => Err(ParquetError::Unsupported),
        }
    }
}

impl<T: DataType> Decoder<T> for DeltaBitPackDecoder<T> {
    type State = DeltaCursor;

    closed spec fn wf(&self) -> bool {
        self.bit_reader is Some ==> self.primed()
    }

    /// Only 64-bit integers are read from DELTA_BINARY_PACKED pages.
    open spec fn supported(&self) -> bool {
        T::physical_type() == Type::INT64
    }

    open spec fn armed(&self) -> bool {
        true
    }

    closed spec fn is_set(&self) -> bool {
        self.bit_reader is Some
    }

    closed spec fn state(&self) -> DeltaCursor {
        self.cursor()
    }

    closed spec fn left(&self) -> nat {
        self.num_values as nat
    }

    /// The header of the page gives the number of values; the declared
    /// number is not read.
    open spec fn bind(&self, data: Seq<u8>, num_values: nat) -> Result<
        (DeltaCursor, nat),
        ParquetError,
    > {
        delta_open(T::physical_type(), data, usize::MAX as nat)
    }

    open spec fn kind(&self) -> Encoding {
        Encoding::DELTA_BINARY_PACKED
    }

    open spec fn page_bytes(&self) -> Option<nat> {
        None
    }

    fn set_data(&mut self, data: BytePtr, num_values: usize) -> (r: Result<(), ParquetError>) {
        match T::get_physical_type() {
            Type::INT64 => {},
            _ => {
                return Err(ParquetError::Unsupported);
            },
        }
        let ghost bytes = data@;
        let mut reader = BitReader::new(data);
        proof {
            lemma_vlq_parse_bound(bytes, 0, MAX_VLQ_BYTE_LEN as nat);
        }
        let block_size = match reader.get_vlq_int() {
            Ok(v) => v,
            Err(e) => {
                return Err(e);
            },
        };
        let mini_blocks = match reader.get_vlq_int() {
            Ok(v) => v,
            Err(e) => {
                return Err(e);
            },
        };
        let count = match reader.get_vlq_int() {
            Ok(v) => v,
            Err(e) => {
                return Err(e);
            },
        };
        let first = match reader.get_zigzag_vlq_int() {
            Ok(v) => v,
            Err(e) => {
                return Err(e);
            },
        };
        if mini_blocks == 0 || block_size % mini_blocks != 0 {
            return Err(ParquetError::BadHeader);
        }
        let per_mini_block = block_size / mini_blocks;
        if per_mini_block == 0 || per_mini_block % 8 != 0 || count > usize::MAX as u64 {
            return Err(ParquetError::BadHeader);
        }
        self.bit_reader = Some(reader);
        self.num_values = count as usize;
        self.num_mini_blocks = mini_blocks;
        self.values_per_mini_block = per_mini_block;
        self.first_value = first;
        self.first_value_read = false;
        self.min_delta = 0;
        self.delta_bit_widths = Vec::new();
        self.mini_block_idx = 0;
        self.values_current_mini_block = 0;
        self.current_value = 0;
        assert(self.cursor().widths =~= Seq::<u8>::empty());
        Ok(())
    }

    fn decode(&mut self, buffer: &mut [T::T], max_values: usize) -> (r: Result<
        usize,
        ParquetError,
    >) {
        match T::get_physical_type() {
            Type::INT64 => {},
            _ => {
                return Err(ParquetError::Unsupported);
            },
        }
        let count = if max_values <= self.num_values {
            max_values
        } else {
            self.num_values
        };
        if count == 0 {
            assert(run(self.state(), 0).failure is None);
            return Ok(0);
        }
        let rest = self.num_values - count;
        match drain(self, buffer, count) {
            Ok(()) => {},
            Err(e) => {
                return Err(e);
            },
        }
        self.num_values = rest;
        Ok(count)
    }

    fn can_decode(&self) -> (b: bool) {
        match T::get_physical_type() {
            Type::INT64 => self.bit_reader.is_some(),
            _ => true,
        }
    }

    fn values_left(&self) -> (n: usize) {
        self.num_values
    }

    fn encoding(&self) -> (e: Encoding) {
        Encoding::DELTA_BINARY_PACKED
    }

    fn total_bytes(&self) -> (r: Result<usize, ParquetError>) {
        Err(ParquetError::Unsupported)
    }
}

/// Reads a whole DELTA_BINARY_PACKED page of integers from the start of
/// `data`. Gives the integers and the index of the first byte behind them.
fn read_delta_page(data: &BytePtr) -> (r: Result<(Vec<i64>, usize), ParquetError>)
    ensures
        match delta_page(data@, usize::MAX as nat) {
            Ok((values, end)) => r matches Ok((v, n)) && v@ == values && n == end && n
                <= data@.len(),
            Err(e) => r matches Err(x) && x == e,
        },
{
    let mut decoder: DeltaBitPackDecoder<Int64Type> = DeltaBitPackDecoder::new();
    match decoder.set_data(data.all(), 0) {
        Ok(()) => {},
        Err(e) => {
            return Err(e);
        },
    }
    let count = decoder.values_left();
    let ghost first = decoder.state();
    let ghost out = run(first, count as nat);
    proof {
        lemma_run_len(first, count as nat);
        lemma_delta_run_keeps_page(first, count as nat);
    }
    let mut values: Vec<i64> = Vec::new();
    let mut i: usize = 0;
    while i < count
        invariant
            i <= count,
            values@.len() == i,
        decreases count - i,
    {
        values.push(0);
        i += 1;
    }
    match decoder.decode(values.as_mut_slice(), count) {
        Ok(_) => {},
        Err(e) => {
            return Err(e);
        },
    }
    let end = decoder.get_offset();
    assert(values@ =~= int64s(out.values));
    Ok((values, end))
}

// ----------------------------------------------------------------------
// DELTA_LENGTH_BYTE_ARRAY

/// The decoder of DELTA_LENGTH_BYTE_ARRAY pages. The number of values is
/// read from the page. Only byte arrays are read.
pub struct DeltaLengthByteArrayDecoder<T: DataType> {
    // The length of each byte array.
    lengths: Vec<i64>,
    // The index in `lengths` of the next byte array.
    current_idx: usize,
    // The bytes of the byte arrays, one after the other.
    data: Option<BytePtr>,
    // The index in `data` of the next byte array.
    offset: usize,
    // The number of values that are left.
    num_values: usize,
    _phantom: PhantomData<T>,
}

impl<T: DataType> DeltaLengthByteArrayDecoder<T> {
    /// A decoder without a page.
    pub fn new() -> (r: Self)
        ensures
            r.wf(),
            !r.is_set(),
            r.left() == 0,
    {
        DeltaLengthByteArrayDecoder {
            lengths: Vec::new(),
            current_idx: 0,
            data: None,
            offset: 0,
            num_values: 0,
            _phantom: PhantomData,
        }
    }
}

impl<T: DataType> Source<T> for DeltaLengthByteArrayDecoder<T> {
    type State = LengthCursor;

    closed spec fn primed(&self) -> bool {
        &&& self.data is Some
        &&& self.offset <= self.data->0@.len()
    }

    closed spec fn cursor(&self) -> LengthCursor {
        LengthCursor {
            ty: T::physical_type(),
            lengths: self.lengths@,
            data: match self.data {
                Some(d) => d@,
                None => Seq::empty(),
            },
            idx: self.current_idx as nat,
            offset: self.offset as nat,
        }
    }

    fn read_value(&mut self) -> (r: Result<T::T, ParquetError>) {
        let ghost expected = self.cursor().step();
        match T::get_physical_type() {
            Type::BYTE_ARRAY => {},
            _ => {
                return Err(ParquetError::Unsupported);
            },
        }
        let data = match self.data.as_ref() {
            Some(d) => d,
            None => {
                return Err(ParquetError::NotEnoughBytes);
            },
        };
        if self.current_idx >= self.lengths.len() {
            return Err(ParquetError::NotEnoughBytes);
        }
        let len = self.lengths[self.current_idx];
        if len < 0 {
            return Err(ParquetError::BadHeader);
        }
        if len as u64 > (data.len() - self.offset) as u64 {
            return Err(ParquetError::NotEnoughBytes);
        }
        let len = len as usize;
        let mut value = ByteArray::new();
        value.set_data(data.range(self.offset, len));
        self.offset = self.offset + len;
        self.current_idx = self.current_idx + 1;
        match T::from_value(Value::Bytes(value)) {
            Some(v) => Ok(v),
            None => Err(ParquetError::Unsupported),
        }
    }
}

impl<T: DataType> Decoder<T> for DeltaLengthByteArrayDecoder<T> {
    type State = LengthCursor;

    closed spec fn wf(&self) -> bool {
        self.data is Some ==> self.primed()
    }

    /// Only byte arrays are read from DELTA_LENGTH_BYTE_ARRAY pages.
    open spec fn supported(&self) -> bool {
        T::physical_type() == Type::BYTE_ARRAY
    }

    open spec fn armed(&self) -> bool {
        true
    }

    closed spec fn is_set(&self) -> bool {
        self.data is Some
    }

    closed spec fn state(&self) -> LengthCursor {
        self.cursor()
    }

    closed spec fn left(&self) -> nat {
        self.num_values as nat
    }

    /// The page gives the number of values; the declared number is not
    /// read.
    open spec fn bind(&self, data: Seq<u8>, num_values: nat) -> Result<
        (LengthCursor, nat),
        ParquetError,
    > {
        length_open(T::physical_type(), data, usize::MAX as nat)
    }

    open spec fn kind(&self) -> Encoding {
        Encoding::DELTA_LENGTH_BYTE_ARRAY
    }

    open spec fn page_bytes(&self) -> Option<nat> {
        None
    }

    fn set_data(&mut self, data: BytePtr, num_values: usize) -> (r: Result<(), ParquetError>) {
        match T::get_physical_type() {
            Type::BYTE_ARRAY => {},
            _ => {
                return Err(ParquetError::Unsupported);
            },
        }
        let (lengths, end) = match read_delta_page(&data) {
            Ok(page) => page,
            Err(e) => {
                return Err(e);
            },
        };
        self.num_values = lengths.len();
        self.lengths = lengths;
        self.data = Some(data.start_from(end));
        self.offset = 0;
        self.current_idx = 0;
        Ok(())
    }

    fn decode(&mut self, buffer: &mut [T::T], max_values: usize) -> (r: Result<
        usize,
        ParquetError,
    >) {
        match T::get_physical_type() {
            Type::BYTE_ARRAY => {},
            _ => {
                return Err(ParquetError::Unsupported);
            },
        }
        let count = if max_values <= self.num_values {
            max_values
        } else {
            self.num_values
        };
        if count == 0 {
            assert(run(self.state(), 0).failure is None);
            return Ok(0);
        }
        let rest = self.num_values - count;
        match drain(self, buffer, count) {
            Ok(()) => {},
            Err(e) => {
                return Err(e);
            },
        }
        self.num_values = rest;
        Ok(count)
    }

    fn can_decode(&self) -> (b: bool) {
        match T::get_physical_type() {
            Type::BYTE_ARRAY => self.data.is_some(),
            _ => true,
        }
    }

    fn values_left(&self) -> (n: usize) {
        self.num_values
    }

    fn encoding(&self) -> (e: Encoding) {
        Encoding::DELTA_LENGTH_BYTE_ARRAY
    }

    fn total_bytes(&self) -> (r: Result<usize, ParquetError>) {
        Err(ParquetError::Unsupported)
    }
}

// ----------------------------------------------------------------------
// DELTA_BYTE_ARRAY

/// The decoder of DELTA_BYTE_ARRAY pages. The number of values is read from
/// the page. Only byte arrays are read. Each value is delivered in a buffer
/// of its own.
pub struct DeltaByteArrayDecoder<T: DataType> {
    // For each byte array, the number of bytes that it shares with the one
    // before it.
    prefix_lengths: Vec<i64>,
    // The index in `prefix_lengths` of the next byte array.
    current_idx: usize,
    // The decoder of the suffixes.
    suffix_decoder: Option<DeltaLengthByteArrayDecoder<ByteArrayType>>,
    // The byte array that was delivered last.
    previous_value: Option<BytePtr>,
    // The number of values that are left.
    num_values: usize,
    _phantom: PhantomData<T>,
}

impl<T: DataType> DeltaByteArrayDecoder<T> {
    /// A decoder without a page.
    pub fn new() -> (r: Self)
        ensures
            r.wf(),
            !r.is_set(),
            r.left() == 0,
    {
        DeltaByteArrayDecoder {
            prefix_lengths: Vec::new(),
            current_idx: 0,
            suffix_decoder: None,
            previous_value: None,
            num_values: 0,
            _phantom: PhantomData,
        }
    }
}

impl<T: DataType> Source<T> for DeltaByteArrayDecoder<T> {
    type State = PrefixCursor;

    closed spec fn primed(&self) -> bool {
        &&& self.suffix_decoder is Some
        &&& self.suffix_decoder->0.primed()
    }

    closed spec fn cursor(&self) -> PrefixCursor {
        PrefixCursor {
            ty: T::physical_type(),
            prefix_lengths: self.prefix_lengths@,
            idx: self.current_idx as nat,
            suffixes: match self.suffix_decoder {
                Some(d) => d.cursor(),
                None => LengthCursor {
                    ty: Type::BYTE_ARRAY,
                    lengths: Seq::empty(),
                    data: Seq::empty(),
                    idx: 0,
                    offset: 0,
                },
            },
            previous: match self.previous_value {
                Some(p) => p@,
                None => Seq::empty(),
            },
        }
    }

    fn read_value(&mut self) -> (r: Result<T::T, ParquetError>) {
        let ghost begin = self.cursor();
        let ghost expected = begin.step();
        let ghost inner = begin.suffixes.step();
        match T::get_physical_type() {
            Type::BYTE_ARRAY => {},
            _ => {
                return Err(ParquetError::Unsupported);
            },
        }
        if self.current_idx >= self.prefix_lengths.len() {
            return Err(ParquetError::NotEnoughBytes);
        }
        let prefix_len = self.prefix_lengths[self.current_idx];
        let previous_len = match self.previous_value.as_ref() {
            Some(p) => p.len(),
            None => 0,
        };
        if prefix_len < 0 || prefix_len as u64 > previous_len as u64 {
            return Err(ParquetError::BadHeader);
        }
        let prefix_len = prefix_len as usize;
        let suffix: ByteArray = match self.suffix_decoder.as_mut() {
            Some(decoder) => match decoder.read_value() {
                Ok(v) => v,
                Err(e) => {
                    return Err(e);
                },
            },
            None => {
                return Err(ParquetError::NotEnoughBytes);
            },
        };
        // Concatenate the prefix and the suffix in a buffer of their own.
        let mut result: Vec<u8> = Vec::new();
        match self.previous_value.as_ref() {
            Some(previous) => {
                let mut i: usize = 0;
                while i < prefix_len
                    invariant
                        i <= prefix_len <= previous@.len(),
                        result@ == previous@.take(i as int),
                    decreases prefix_len - i,
                {
                    result.push(previous.get(i));
                    assert(result@ =~= previous@.take(i + 1));
                    i += 1;
                }
            },
            None => {},
        }
        let ghost head = result@;
        assert(head =~= begin.previous.take(prefix_len as int));
        let tail = suffix.as_slice();
        let mut j: usize = 0;
        while j < tail.len()
            invariant
                j <= tail@.len(),
                result@ == head + tail@.take(j as int),
            decreases tail@.len() - j,
        {
            result.push(tail[j]);
            assert(result@ =~= head + tail@.take(j + 1));
            j += 1;
        }
        assert(result@ =~= head + tail@);
        let data = BytePtr::new(result);
        let mut value = ByteArray::new();
        value.set_data(data.all());
        self.previous_value = Some(data);
        self.current_idx = self.current_idx + 1;
        match T::from_value(Value::Bytes(value)) {
            Some(v) => Ok(v),
            None => Err(ParquetError::Unsupported),
        }
    }
}

impl<T: DataType> Decoder<T> for DeltaByteArrayDecoder<T> {
    type State = PrefixCursor;

    closed spec fn wf(&self) -> bool {
        self.suffix_decoder is Some ==> self.primed()
    }

    /// Only byte arrays are read from DELTA_BYTE_ARRAY pages.
    open spec fn supported(&self) -> bool {
        T::physical_type() == Type::BYTE_ARRAY
    }

    open spec fn armed(&self) -> bool {
        true
    }

    closed spec fn is_set(&self) -> bool {
        self.suffix_decoder is Some
    }

    closed spec fn state(&self) -> PrefixCursor {
        self.cursor()
    }

    closed spec fn left(&self) -> nat {
        self.num_values as nat
    }

    /// The page gives the number of values; the declared number is not
    /// read.
    open spec fn bind(&self, data: Seq<u8>, num_values: nat) -> Result<
        (PrefixCursor, nat),
        ParquetError,
    > {
        prefix_open(T::physical_type(), data, usize::MAX as nat)
    }

    open spec fn kind(&self) -> Encoding {
        Encoding::DELTA_BYTE_ARRAY
    }

    open spec fn page_bytes(&self) -> Option<nat> {
        None
    }

    fn set_data(&mut self, data: BytePtr, num_values: usize) -> (r: Result<(), ParquetError>) {
        match T::get_physical_type() {
            Type::BYTE_ARRAY => {},
            _ => {
                return Err(ParquetError::Unsupported);
            },
        }
        let (prefix_lengths, end) = match read_delta_page(&data) {
            Ok(page) => page,
            Err(e) => {
                return Err(e);
            },
        };
        let mut suffix_decoder: DeltaLengthByteArrayDecoder<ByteArrayType> =
            DeltaLengthByteArrayDecoder::new();
        match suffix_decoder.set_data(data.start_from(end), num_values) {
            Ok(()) => {},
            Err(e) => {
                return Err(e);
            },
        }
        self.num_values = prefix_lengths.len();
        self.prefix_lengths = prefix_lengths;
        self.current_idx = 0;
        self.suffix_decoder = Some(suffix_decoder);
        self.previous_value = None;
        Ok(())
    }

    fn decode(&mut self, buffer: &mut [T::T], max_values: usize) -> (r: Result<
        usize,
        ParquetError,
    >) {
        match T::get_physical_type() {
            Type::BYTE_ARRAY => {},
            _ => {
                return Err(ParquetError::Unsupported);
            },
        }
        let count = if max_values <= self.num_values {
            max_values
        } else {
            self.num_values
        };
        if count == 0 {
            assert(run(self.state(), 0).failure is None);
            return Ok(0);
        }
        let rest = self.num_values - count;
        match drain(self, buffer, count) {
            Ok(()) => {},
            Err(e) => {
                return Err(e);
            },
        }
        self.num_values = rest;
        Ok(count)
    }

    fn can_decode(&self) -> (b: bool) {
        match T::get_physical_type() {
            Type::BYTE_ARRAY => self.suffix_decoder.is_some(),
            _ => true,
        }
    }

    fn values_left(&self) -> (n: usize) {
        self.num_values
    }

    fn encoding(&self) -> (e: Encoding) {
        Encoding::DELTA_BYTE_ARRAY
    }

    fn total_bytes(&self) -> (r: Result<usize, ParquetError>) {
        Err(ParquetError::Unsupported)
    }
}

// ----------------------------------------------------------------------
// Selecting a decoder

/// A position in a page of one of the encodings that `get_decoder` selects.
pub enum AnyCursor {
    Plain(PlainCursor),
    Rle(LevelCursor),
    DeltaBitPack(DeltaCursor),
    DeltaLength(LengthCursor),
    DeltaByteArray(PrefixCursor),
}

/// A step of the cursor of one encoding, as a step of `AnyCursor`.
pub open spec fn lift<S>(step: Step<S>, wrap: spec_fn(S) -> AnyCursor) -> Step<AnyCursor> {
    match step {
        Step::Yield(d, next) => Step::Yield(d, wrap(next)),
        Step::Fail(e) => Step::Fail(e),
    }
}

impl Cursor for AnyCursor {
    /// The step of the cursor that is held.
    open spec fn step(self) -> Step<AnyCursor> {
        match self {
            AnyCursor::Plain(c) => lift(c.step(), |n: PlainCursor| AnyCursor::Plain(n)),
            AnyCursor::Rle(c) => lift(c.step(), |n: LevelCursor| AnyCursor::Rle(n)),
            AnyCursor::DeltaBitPack(c) => lift(
                c.step(),
                |n: DeltaCursor| AnyCursor::DeltaBitPack(n),
            ),
            AnyCursor::DeltaLength(c) => lift(
                c.step(),
                |n: LengthCursor| AnyCursor::DeltaLength(n),
            ),
            AnyCursor::DeltaByteArray(c) => lift(
                c.step(),
                |n: PrefixCursor| AnyCursor::DeltaByteArray(n),
            ),
        }
    }
}

/// A run of `AnyCursor` is the run of the cursor that it holds.
pub proof fn lemma_run_any<S: Cursor>(c: S, wrap: spec_fn(S) -> AnyCursor, n: nat)
    requires
        forall|s: S| #[trigger] wrap(s).step() == lift(s.step(), wrap),
    ensures
        run(wrap(c), n).values == run(c, n).values,
        run(wrap(c), n).failure == run(c, n).failure,
        run(wrap(c), n).state == wrap(run(c, n).state),
    decreases n,
{
    if n > 0 {
        lemma_run_any(c, wrap, (n - 1) as nat);
        let inner = run(c, (n - 1) as nat);
        assert(wrap(inner.state).step() == lift(inner.state.step(), wrap));
    }
}

/// The number of bits of a level of a column whose largest level is
/// `level`, by the convention of the level encoder: the least `n` with
/// `level <= 2^n`. A negative level reads as a 64-bit pattern and takes 64
/// bits.
pub open spec fn level_bit_width(level: i16) -> nat {
    if level >= 0 {
        ceil_log2(level as nat)
    } else {
        64
    }
}

/// A decoder of one of the encodings that `get_decoder` selects.
pub enum AnyDecoder<T: DataType> {
    Plain(PlainDecoder<T>),
    Rle(RleDecoder<T>),
    DeltaBitPack(DeltaBitPackDecoder<T>),
    DeltaLength(DeltaLengthByteArrayDecoder<T>),
    DeltaByteArray(DeltaByteArrayDecoder<T>),
}

/// The decoder for pages of `encoding` that hold values of type `T`.
/// `descr` and `value_type` are read for RLE pages, which hold levels: the
/// bit width of a level follows from the largest level of the column. The
/// dictionary encodings are not served: their decoder is made directly,
/// since it needs the dictionary.
pub fn get_decoder<T: DataType>(descr: ColumnDescPtr, encoding: Encoding, value_type: ValueType) -> (r:
    Result<AnyDecoder<T>, ParquetError>)
    ensures
        match encoding {
            Encoding::PLAIN => r matches Ok(AnyDecoder::Plain(d)) && d.spec_type_length()
                == descr.type_length,
            Encoding::RLE => match value_type {
                ValueType::DEF_LEVEL => r matches Ok(AnyDecoder::Rle(d)) && d.spec_bit_width()
                    == level_bit_width(descr.max_def_level),
                ValueType::REP_LEVEL => r matches Ok(AnyDecoder::Rle(d)) && d.spec_bit_width()
                    == level_bit_width(descr.max_rep_level),
                ValueType::VALUE => r matches Err(e) && e == ParquetError::Unsupported,
            },
            Encoding::DELTA_BINARY_PACKED => r matches Ok(AnyDecoder::DeltaBitPack(_)),
            Encoding::DELTA_LENGTH_BYTE_ARRAY => r matches Ok(AnyDecoder::DeltaLength(_)),
            Encoding::DELTA_BYTE_ARRAY => r matches Ok(AnyDecoder::DeltaByteArray(_)),
            Encoding::RLE_DICTIONARY | Encoding::PLAIN_DICTIONARY => r matches Err(e) && e
                == ParquetError::Unsupported,
            Encoding::BIT_PACKED => r matches Err(e) && e == ParquetError::NotYetImplemented,
        },
        r matches Ok(d) ==> d.wf() && !d.is_set() && d.left() == 0,
{
    let decoder = match encoding {
        Encoding::PLAIN => AnyDecoder::Plain(PlainDecoder::new(descr.type_length())),
        Encoding::RLE => {
            let level = match value_type {
                ValueType::DEF_LEVEL => descr.max_def_level(),
                ValueType::REP_LEVEL => descr.max_rep_level(),
                ValueType::VALUE => {
                    return Err(ParquetError::Unsupported);
                },
            };
            let level_bit_width: usize = if level >= 0 {
                log2(level as u64) as usize
            } else {
                64
            };
            AnyDecoder::Rle(RleDecoder::new(level_bit_width))
        },
        Encoding::DELTA_BINARY_PACKED => AnyDecoder::DeltaBitPack(DeltaBitPackDecoder::new()),
        Encoding::DELTA_LENGTH_BYTE_ARRAY => AnyDecoder::DeltaLength(
            DeltaLengthByteArrayDecoder::new(),
        ),
        Encoding::DELTA_BYTE_ARRAY => AnyDecoder::DeltaByteArray(DeltaByteArrayDecoder::new()),
        Encoding::RLE_DICTIONARY | Encoding::PLAIN_DICTIONARY => {
            return Err(ParquetError::Unsupported);
        },
        Encoding::BIT_PACKED => {
            return Err(ParquetError::NotYetImplemented);
        },
    };
    Ok(decoder)
}

/// Lifts what binding a page gives for one encoding.
pub open spec fn lift_bind<S>(
    bound: Result<(S, nat), ParquetError>,
    wrap: spec_fn(S) -> AnyCursor,
) -> Result<(AnyCursor, nat), ParquetError> {
    match bound {
        Ok((s, n)) => Ok((wrap(s), n)),
        Err(e) => Err(e),
    }
}

impl<T: DataType> Decoder<T> for AnyDecoder<T> {
    type State = AnyCursor;

    open spec fn wf(&self) -> bool {
        match self {
            AnyDecoder::Plain(d) => d.wf(),
            AnyDecoder::Rle(d) => d.wf(),
            AnyDecoder::DeltaBitPack(d) => d.wf(),
            AnyDecoder::DeltaLength(d) => d.wf(),
            AnyDecoder::DeltaByteArray(d) => d.wf(),
        }
    }

    open spec fn supported(&self) -> bool {
        match self {
            AnyDecoder::Plain(d) => d.supported(),
            AnyDecoder::Rle(d) => d.supported(),
            AnyDecoder::DeltaBitPack(d) => d.supported(),
            AnyDecoder::DeltaLength(d) => d.supported(),
            AnyDecoder::DeltaByteArray(d) => d.supported(),
        }
    }

    open spec fn armed(&self) -> bool {
        true
    }

    open spec fn is_set(&self) -> bool {
        match self {
            AnyDecoder::Plain(d) => d.is_set(),
            AnyDecoder::Rle(d) => d.is_set(),
            AnyDecoder::DeltaBitPack(d) => d.is_set(),
            AnyDecoder::DeltaLength(d) => d.is_set(),
            AnyDecoder::DeltaByteArray(d) => d.is_set(),
        }
    }

    open spec fn state(&self) -> AnyCursor {
        match self {
            AnyDecoder::Plain(d) => AnyCursor::Plain(d.state()),
            AnyDecoder::Rle(d) => AnyCursor::Rle(d.state()),
            AnyDecoder::DeltaBitPack(d) => AnyCursor::DeltaBitPack(d.state()),
            AnyDecoder::DeltaLength(d) => AnyCursor::DeltaLength(d.state()),
            AnyDecoder::DeltaByteArray(d) => AnyCursor::DeltaByteArray(d.state()),
        }
    }

    open spec fn left(&self) -> nat {
        match self {
            AnyDecoder::Plain(d) => d.left(),
            AnyDecoder::Rle(d) => d.left(),
            AnyDecoder::DeltaBitPack(d) => d.left(),
            AnyDecoder::DeltaLength(d) => d.left(),
            AnyDecoder::DeltaByteArray(d) => d.left(),
        }
    }

    open spec fn bind(&self, data: Seq<u8>, num_values: nat) -> Result<
        (AnyCursor, nat),
        ParquetError,
    > {
        match self {
            AnyDecoder::Plain(d) => lift_bind(
                d.bind(data, num_values),
                |n: PlainCursor| AnyCursor::Plain(n),
            ),
            AnyDecoder::Rle(d) => lift_bind(
                d.bind(data, num_values),
                |n: LevelCursor| AnyCursor::Rle(n),
            ),
            AnyDecoder::DeltaBitPack(d) => lift_bind(
                d.bind(data, num_values),
                |n: DeltaCursor| AnyCursor::DeltaBitPack(n),
            ),
            AnyDecoder::DeltaLength(d) => lift_bind(
                d.bind(data, num_values),
                |n: LengthCursor| AnyCursor::DeltaLength(n),
            ),
            AnyDecoder::DeltaByteArray(d) => lift_bind(
                d.bind(data, num_values),
                |n: PrefixCursor| AnyCursor::DeltaByteArray(n),
            ),
        }
    }

    open spec fn kind(&self) -> Encoding {
        match self {
            AnyDecoder::Plain(d) => d.kind(),
            AnyDecoder::Rle(d) => d.kind(),
            AnyDecoder::DeltaBitPack(d) => d.kind(),
            AnyDecoder::DeltaLength(d) => d.kind(),
            AnyDecoder::DeltaByteArray(d) => d.kind(),
        }
    }

    open spec fn page_bytes(&self) -> Option<nat> {
        match self {
            AnyDecoder::Plain(d) => d.page_bytes(),
            AnyDecoder::Rle(d) => d.page_bytes(),
            AnyDecoder::DeltaBitPack(d) => d.page_bytes(),
            AnyDecoder::DeltaLength(d) => d.page_bytes(),
            AnyDecoder::DeltaByteArray(d) => d.page_bytes(),
        }
    }

    fn set_data(&mut self, data: BytePtr, num_values: usize) -> (r: Result<(), ParquetError>) {
        match self {
            AnyDecoder::Plain(d) => d.set_data(data, num_values),
            AnyDecoder::Rle(d) => d.set_data(data, num_values),
            AnyDecoder::DeltaBitPack(d) => d.set_data(data, num_values),
            AnyDecoder::DeltaLength(d) => d.set_data(data, num_values),
            AnyDecoder::DeltaByteArray(d) => d.set_data(data, num_values),
        }
    }

    fn decode(&mut self, buffer: &mut [T::T], max_values: usize) -> (r: Result<
        usize,
        ParquetError,
    >) {
        let ghost count = chunk(max_values as nat, self.left());
        match self {
            AnyDecoder::Plain(d) => {
                proof {
                    lemma_run_any(d.state(), |n: PlainCursor| AnyCursor::Plain(n), count);
                }
                d.decode(buffer, max_values)
            },
            AnyDecoder::Rle(d) => {
                proof {
                    lemma_run_any(d.state(), |n: LevelCursor| AnyCursor::Rle(n), count);
                }
                d.decode(buffer, max_values)
            },
            AnyDecoder::DeltaBitPack(d) => {
                proof {
                    lemma_run_any(d.state(), |n: DeltaCursor| AnyCursor::DeltaBitPack(n), count);
                }
                d.decode(buffer, max_values)
            },
            AnyDecoder::DeltaLength(d) => {
                proof {
                    lemma_run_any(d.state(), |n: LengthCursor| AnyCursor::DeltaLength(n), count);
                }
                d.decode(buffer, max_values)
            },
            AnyDecoder::DeltaByteArray(d) => {
                proof {
                    lemma_run_any(
                        d.state(),
                        |n: PrefixCursor| AnyCursor::DeltaByteArray(n),
                        count,
                    );
                }
                d.decode(buffer, max_values)
            },
        }
    }

    fn can_decode(&self) -> (b: bool) {
        match self {
            AnyDecoder::Plain(d) => d.can_decode(),
            AnyDecoder::Rle(d) => d.can_decode(),
            AnyDecoder::DeltaBitPack(d) => d.can_decode(),
            AnyDecoder::DeltaLength(d) => d.can_decode(),
            AnyDecoder::DeltaByteArray(d) => d.can_decode(),
        }
    }

    fn values_left(&self) -> (n: usize) {
        match self {
            AnyDecoder::Plain(d) => d.values_left(),
            AnyDecoder::Rle(d) => d.values_left(),
            AnyDecoder::DeltaBitPack(d) => d.values_left(),
            AnyDecoder::DeltaLength(d) => d.values_left(),
            AnyDecoder::DeltaByteArray(d) => d.values_left(),
        }
    }

    fn encoding(&self) -> (e: Encoding) {
        match self {
            AnyDecoder::Plain(d) => d.encoding(),
            AnyDecoder::Rle(d) => d.encoding(),
            AnyDecoder::DeltaBitPack(d) => d.encoding(),
            AnyDecoder::DeltaLength(d) => d.encoding(),
            AnyDecoder::DeltaByteArray(d) => d.encoding(),
        }
    }

    fn total_bytes(&self) -> (r: Result<usize, ParquetError>) {
        match self {
            AnyDecoder::Plain(d) => d.total_bytes(),
            AnyDecoder::Rle(d) => d.total_bytes(),
            AnyDecoder::DeltaBitPack(d) => d.total_bytes(),
            AnyDecoder::DeltaLength(d) => d.total_bytes(),
            AnyDecoder::DeltaByteArray(d) => d.total_bytes(),
        }
    }
}

} // verus!
