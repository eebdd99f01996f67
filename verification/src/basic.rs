//! Physical types, encodings and the values that decoders deliver.
use crate::util::memory::BytePtr;
use vstd::prelude::*;
use vstd::std_specs::cmp::PartialEqSpecImpl;

verus! {

/// The physical type of a column: the shape of each of its values on disk.
#[allow(non_camel_case_types)]
#[derive(Clone, Copy, Debug, PartialEq, Eq, Structural)]
pub enum Type {
    BOOLEAN,
    INT32,
    INT64,
    INT96,
    FLOAT,
    DOUBLE,
    BYTE_ARRAY,
    FIXED_LEN_BYTE_ARRAY,
}

/// How the values of a page are laid out in its bytes.
#[allow(non_camel_case_types)]
#[derive(Clone, Copy, Debug, PartialEq, Eq, Structural)]
pub enum Encoding {
    PLAIN,
    PLAIN_DICTIONARY,
    RLE,
    BIT_PACKED,
    DELTA_BINARY_PACKED,
    DELTA_LENGTH_BYTE_ARRAY,
    DELTA_BYTE_ARRAY,
    RLE_DICTIONARY,
}

/// A decoded value as a mathematical object. Floating-point values stand as
/// their IEEE-754 bit patterns, byte arrays as the sequence of their bytes.
pub enum Datum {
    Bool(bool),
    Int32(i32),
    Int64(i64),
    Int96(u32, u32, u32),
    Float(u32),
    Double(u64),
    Bytes(Seq<u8>),
}

impl Datum {
    /// Whether a column of physical type `ty` holds values of this shape.
    pub open spec fn fits(self, ty: Type) -> bool {
        match self {
            Datum::Bool(_) => ty == Type::BOOLEAN,
            Datum::Int32(_) => ty == Type::INT32,
            Datum::Int64(_) => ty == Type::INT64,
            Datum::Int96(_, _, _) => ty == Type::INT96,
            Datum::Float(_) => ty == Type::FLOAT,
            Datum::Double(_) => ty == Type::DOUBLE,
            Datum::Bytes(_) => ty == Type::BYTE_ARRAY || ty == Type::FIXED_LEN_BYTE_ARRAY,
        }
    }
}

/// The value that fresh buffers of a column of physical type `ty` are
/// filled with: false, zero, or the byte array without bytes.
pub open spec fn zero_datum(ty: Type) -> Datum {
    match ty {
        Type::BOOLEAN => Datum::Bool(false),
        Type::INT32 => Datum::Int32(0),
        Type::INT64 => Datum::Int64(0),
        Type::INT96 => Datum::Int96(0, 0, 0),
        Type::FLOAT => Datum::Float(0),
        Type::DOUBLE => Datum::Double(0),
        Type::BYTE_ARRAY | Type::FIXED_LEN_BYTE_ARRAY => Datum::Bytes(Seq::empty()),
    }
}

/// A 96-bit value: three 32-bit words in the order in which they are stored.
#[derive(Clone, Copy, Debug, PartialEq, Eq, Structural)]
pub struct Int96 {
    pub w0: u32,
    pub w1: u32,
    pub w2: u32,
}

impl Int96 {
    /// The value whose three words are zero.
    pub fn new() -> (r: Int96)
        ensures
            r == (Int96 { w0: 0, w1: 0, w2: 0 }),
    {
        Int96 { w0: 0, w1: 0, w2: 0 }
    }

    /// The three words.
    pub fn get_data(&self) -> (v: Vec<u32>)
        ensures
            v@ == seq![self.w0, self.w1, self.w2],
    {
        let mut v: Vec<u32> = Vec::new();
        v.push(self.w0);
        v.push(self.w1);
        v.push(self.w2);
        assert(v@ =~= seq![self.w0, self.w1, self.w2]);
        v
    }

    /// Replaces the three words by those of `v`.
    pub fn set_data(&mut self, v: Vec<u32>)
        requires
            v@.len() == 3,
        ensures
            *final(self) == (Int96 { w0: v@[0], w1: v@[1], w2: v@[2] }),
    {
        self.w0 = v[0];
        self.w1 = v[1];
        self.w2 = v[2];
    }
}

/// A byte string that refers to a range of a shared buffer.
#[derive(Debug)]
pub struct ByteArray {
    data: Option<BytePtr>,
}

impl View for ByteArray {
    type V = Seq<u8>;

    /// The bytes of the string; none while no data is set.
    closed spec fn view(&self) -> Seq<u8> {
        match self.data {
            Some(p) => p@,
            None => Seq::empty(),
        }
    }
}

impl ByteArray {
    /// Whether data has been set.
    pub closed spec fn is_set(&self) -> bool {
        self.data is Some
    }

    /// A byte array without data.
    pub fn new() -> (r: ByteArray)
        ensures
            !r.is_set(),
            r@ == Seq::<u8>::empty(),
    {
        ByteArray { data: None }
    }

    /// The number of bytes.
    pub fn len(&self) -> (n: usize)
        ensures
            n == self@.len(),
    {
        match &self.data {
            Some(p) => p.len(),
            None => 0,
        }
    }

    /// The bytes.
    pub fn get_data(&self) -> (s: &[u8])
        requires
            self.is_set(),
        ensures
            s@ == self@,
    {
        match &self.data {
            Some(p) => p.slice_all(),
            None => {
                let v: &[u8] = &[];
                v
            },
        }
    }

    /// The bytes; none while no data is set.
    pub fn as_slice(&self) -> (s: &[u8])
        ensures
            s@ == self@,
    {
        match &self.data {
            Some(p) => p.slice_all(),
            None => {
                let v: &[u8] = &[];
                v
            },
        }
    }

    /// Makes the byte array show the bytes of `data`.
    pub fn set_data(&mut self, data: BytePtr)
        ensures
            final(self).is_set(),
            final(self)@ == data@,
    {
        self.data = Some(data);
    }

    /// Another handle on the same bytes.
    pub fn duplicate(&self) -> (r: ByteArray)
        ensures
            r@ == self@,
            r.is_set() == self.is_set(),
    {
        match &self.data {
            Some(p) => ByteArray { data: Some(p.all()) },
            None => ByteArray { data: None },
        }
    }
}

impl Default for ByteArray {
    fn default() -> (r: ByteArray)
        ensures
            !r.is_set(),
            r@ == Seq::<u8>::empty(),
    {
        ByteArray { data: None }
    }
}

impl Clone for ByteArray {
    fn clone(&self) -> (r: ByteArray)
        ensures
            r@ == self@,
    {
        self.duplicate()
    }
}

impl PartialEq for ByteArray {
    /// Two byte arrays are equal when they hold the same bytes.
    fn eq(&self, other: &ByteArray) -> (r: bool) {
        let n = self.len();
        if n != other.len() {
            return false;
        }
        match (&self.data, &other.data) {
            (Some(a), Some(b)) => {
                let mut i: usize = 0;
                while i < n
                    invariant
                        n == a@.len(),
                        n == b@.len(),
                        self@ == a@,
                        other@ == b@,
                        i <= n,
                        forall|j: int| 0 <= j < i ==> a@[j] == b@[j],
                    decreases n - i,
                {
                    if a.get(i) != b.get(i) {
                        return false;
                    }
                    i += 1;
                }
                assert(a@ =~= b@);
                true
            },
            _ => {
                assert(self@ =~= other@);
                true
            },
        }
    }
}

impl PartialEqSpecImpl for ByteArray {
    open spec fn obeys_eq_spec() -> bool {
        true
    }

    open spec fn eq_spec(&self, other: &ByteArray) -> bool {
        self@ == other@
    }
}

/// A decoded value of any physical type.
#[derive(Debug)]
pub enum Value {
    Bool(bool),
    Int32(i32),
    Int64(i64),
    Int96(Int96),
    /// The bit pattern of a 32-bit floating-point number.
    Float(u32),
    /// The bit pattern of a 64-bit floating-point number.
    Double(u64),
    Bytes(ByteArray),
}

impl View for Value {
    type V = Datum;

    open spec fn view(&self) -> Datum {
        match self {
            Value::Bool(b) => Datum::Bool(*b),
            Value::Int32(x) => Datum::Int32(*x),
            Value::Int64(x) => Datum::Int64(*x),
            Value::Int96(x) => Datum::Int96(x.w0, x.w1, x.w2),
            Value::Float(x) => Datum::Float(*x),
            Value::Double(x) => Datum::Double(*x),
            Value::Bytes(b) => Datum::Bytes(b@),
        }
    }
}

/// A physical type together with the Rust type that holds its values.
pub trait DataType {
    /// The type of a decoded value.
    type T;

    /// The physical type.
    spec fn physical_type() -> Type;

    /// The mathematical value that `v` stands for.
    spec fn datum(v: Self::T) -> Datum;

    fn get_physical_type() -> (t: Type)
        ensures
            t == Self::physical_type(),
    ;

    /// The value of this type that `v` holds, if `v` has the shape of this
    /// physical type.
    fn from_value(v: Value) -> (r: Option<Self::T>)
        ensures
            r is Some <==> v@.fits(Self::physical_type()),
            r matches Some(x) ==> Self::datum(x) == v@,
    ;

    /// A second value that stands for what `v` stands for.
    fn duplicate(v: &Self::T) -> (r: Self::T)
        ensures
            Self::datum(r) == Self::datum(*v),
    ;

    /// The value to fill fresh buffers with: false, zero (for floating-point
    /// types, the bit pattern of positive zero), or a byte array without
    /// data.
    fn zero() -> (r: Self::T)
        ensures
            Self::datum(r) == zero_datum(Self::physical_type()),
    ;
}

pub struct BoolType {}

pub struct Int32Type {}

pub struct Int64Type {}

pub struct Int96Type {}

pub struct FloatType {}

pub struct DoubleType {}

pub struct ByteArrayType {}

pub struct FixedLenByteArrayType {}

impl DataType for BoolType {
    type T = bool;

    open spec fn physical_type() -> Type {
        Type::BOOLEAN
    }

    open spec fn datum(v: bool) -> Datum {
        Datum::Bool(v)
    }

    fn get_physical_type() -> (t: Type) {
        Type::BOOLEAN
    }

    fn from_value(v: Value) -> (r: Option<bool>) {
        match v {
            Value::Bool(b) => Some(b),
            _ => None,
        }
    }

    fn duplicate(v: &bool) -> (r: bool) {
        *v
    }

    fn zero() -> (r: bool)
        ensures
            r == false,
    {
        false
    }
}

impl DataType for Int32Type {
    type T = i32;

    open spec fn physical_type() -> Type {
        Type::INT32
    }

    open spec fn datum(v: i32) -> Datum {
        Datum::Int32(v)
    }

    fn get_physical_type() -> (t: Type) {
        Type::INT32
    }

    fn from_value(v: Value) -> (r: Option<i32>) {
        match v {
            Value::Int32(x) => Some(x),
            _ => None,
        }
    }

    fn duplicate(v: &i32) -> (r: i32) {
        *v
    }

    fn zero() -> (r: i32)
        ensures
            r == 0,
    {
        0
    }
}

impl DataType for Int64Type {
    type T = i64;

    open spec fn physical_type() -> Type {
        Type::INT64
    }

    open spec fn datum(v: i64) -> Datum {
        Datum::Int64(v)
    }

    fn get_physical_type() -> (t: Type) {
        Type::INT64
    }

    fn from_value(v: Value) -> (r: Option<i64>) {
        match v {
            Value::Int64(x) => Some(x),
            _ => None,
        }
    }

    fn duplicate(v: &i64) -> (r: i64) {
        *v
    }

    fn zero() -> (r: i64)
        ensures
            r == 0,
    {
        0
    }
}

impl DataType for Int96Type {
    type T = Int96;

    open spec fn physical_type() -> Type {
        Type::INT96
    }

    open spec fn datum(v: Int96) -> Datum {
        Datum::Int96(v.w0, v.w1, v.w2)
    }

    fn get_physical_type() -> (t: Type) {
        Type::INT96
    }

    fn from_value(v: Value) -> (r: Option<Int96>) {
        match v {
            Value::Int96(x) => Some(x),
            _ => None,
        }
    }

    fn duplicate(v: &Int96) -> (r: Int96) {
        *v
    }

    fn zero() -> (r: Int96)
        ensures
            r == (Int96 { w0: 0, w1: 0, w2: 0 }),
    {
        Int96::new()
    }
}

/// 32-bit floating-point columns. A value is held as its IEEE-754 bit
/// pattern.
impl DataType for FloatType {
    type T = u32;

    open spec fn physical_type() -> Type {
        Type::FLOAT
    }

    open spec fn datum(v: u32) -> Datum {
        Datum::Float(v)
    }

    fn get_physical_type() -> (t: Type) {
        Type::FLOAT
    }

    fn from_value(v: Value) -> (r: Option<u32>) {
        match v {
            Value::Float(x) => Some(x),
            _ => None,
        }
    }

    fn duplicate(v: &u32) -> (r: u32) {
        *v
    }

    fn zero() -> (r: u32)
        ensures
            r == 0,
    {
        0
    }
}

/// 64-bit floating-point columns. A value is held as its IEEE-754 bit
/// pattern.
impl DataType for DoubleType {
    type T = u64;

    open spec fn physical_type() -> Type {
        Type::DOUBLE
    }

    open spec fn datum(v: u64) -> Datum {
        Datum::Double(v)
    }

    fn get_physical_type() -> (t: Type) {
        Type::DOUBLE
    }

    fn from_value(v: Value) -> (r: Option<u64>) {
        match v {
            Value::Double(x) => Some(x),
            _ => None,
        }
    }

    fn duplicate(v: &u64) -> (r: u64) {
        *v
    }

    fn zero() -> (r: u64)
        ensures
            r == 0,
    {
        0
    }
}

impl DataType for ByteArrayType {
    type T = ByteArray;

    open spec fn physical_type() -> Type {
        Type::BYTE_ARRAY
    }

    open spec fn datum(v: ByteArray) -> Datum {
        Datum::Bytes(v@)
    }

    fn get_physical_type() -> (t: Type) {
        Type::BYTE_ARRAY
    }

    fn from_value(v: Value) -> (r: Option<ByteArray>) {
        match v {
            Value::Bytes(x) => Some(x),
            _ => None,
        }
    }

    fn duplicate(v: &ByteArray) -> (r: ByteArray) {
        v.duplicate()
    }

    fn zero() -> (r: ByteArray)
        ensures
            r@ == Seq::<u8>::empty(),
            !r.is_set(),
    {
        ByteArray::new()
    }
}

impl DataType for FixedLenByteArrayType {
    type T = ByteArray;

    open spec fn physical_type() -> Type {
        Type::FIXED_LEN_BYTE_ARRAY
    }

    open spec fn datum(v: ByteArray) -> Datum {
        Datum::Bytes(v@)
    }

    fn get_physical_type() -> (t: Type) {
        Type::FIXED_LEN_BYTE_ARRAY
    }

    fn from_value(v: Value) -> (r: Option<ByteArray>) {
        match v {
            Value::Bytes(x) => Some(x),
            _ => None,
        }
    }

    fn duplicate(v: &ByteArray) -> (r: ByteArray) {
        v.duplicate()
    }

    fn zero() -> (r: ByteArray)
        ensures
            r@ == Seq::<u8>::empty(),
            !r.is_set(),
    {
        ByteArray::new()
    }
}

} // verus!
