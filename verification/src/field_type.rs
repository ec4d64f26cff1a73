//! Physical column types, per-column settings and run-time values.

use crate::common::ColumnType;
use crate::wire::{push_bytes, u16_be, u32_be, u64_be};
use vstd::prelude::*;
use vstd::std_specs::cmp::PartialEqSpecImpl;
use vstd::std_specs::convert::FromSpecImpl;

verus! {

/// How a column is stored inside a segment.
#[derive(Debug, Clone, Copy, PartialEq, Eq, Structural)]
pub enum FieldType {
    Int8,
    Int16,
    Int32,
    Int64,
    Float32,
    Float64,
    /// Variable-length bytes.
    Bytes,
    /// A date, stored as a 32-bit count of days.
    Date,
}

impl FieldType {
    /// The physical type that stores a logical column type.
    pub open spec fn of_column_type(ct: ColumnType) -> FieldType {
        match ct {
            ColumnType::Int8 => FieldType::Int8,
            ColumnType::Int16 => FieldType::Int16,
            ColumnType::Int32 => FieldType::Int32,
            ColumnType::Int64 => FieldType::Int64,
            ColumnType::Float32 => FieldType::Float32,
            ColumnType::Float64 => FieldType::Float64,
            ColumnType::Varchar => FieldType::Bytes,
            ColumnType::Date => FieldType::Date,
        }
    }

    /// Width in bytes of a fixed-width type.
    pub open spec fn width(self) -> Option<usize> {
        match self {
            FieldType::Int8 => Some(1usize),
            FieldType::Int16 => Some(2usize),
            FieldType::Int32 | FieldType::Date => Some(4usize),
            FieldType::Int64 => Some(8usize),
            FieldType::Float32 => Some(4usize),
            FieldType::Float64 => Some(8usize),
            FieldType::Bytes => None,
        }
    }

    /// Whether values of the type are integers.
    pub open spec fn integer(self) -> bool {
        self is Int8 || self is Int16 || self is Int32 || self is Int64 || self is Date
    }

    /// Width in bytes; `None` for the variable-length type.
    pub fn fixed_size(self) -> (r: Option<usize>)
        ensures
            r == self.width(),
    {
        match self {
            FieldType::Int8 => Some(1),
            FieldType::Int16 => Some(2),
            FieldType::Int32 | FieldType::Date => Some(4),
            FieldType::Int64 => Some(8),
            FieldType::Float32 => Some(4),
            FieldType::Float64 => Some(8),
            FieldType::Bytes => None,
        }
    }

    pub fn is_integer(self) -> (r: bool)
        ensures
            r == self.integer(),
    {
        match self {
            FieldType::Int8
            | FieldType::Int16
            | FieldType::Int32
            | FieldType::Int64
            | FieldType::Date => true,
            _ => false,
        }
    }
}

impl From<ColumnType> for FieldType {
    fn from(ct: ColumnType) -> (r: Self) {
        match ct {
            ColumnType::Int8 => FieldType::Int8,
            ColumnType::Int16 => FieldType::Int16,
            ColumnType::Int32 => FieldType::Int32,
            ColumnType::Int64 => FieldType::Int64,
            ColumnType::Float32 => FieldType::Float32,
            ColumnType::Float64 => FieldType::Float64,
            ColumnType::Varchar => FieldType::Bytes,
            ColumnType::Date => FieldType::Date,
        }
    }
}

impl FromSpecImpl<ColumnType> for FieldType {
    open spec fn obeys_from_spec() -> bool {
        true
    }

    open spec fn from_spec(ct: ColumnType) -> Self {
        FieldType::of_column_type(ct)
    }
}

/// How the values of a page are laid out before compression.
#[derive(Debug, Clone, Copy, PartialEq, Eq, Structural)]
pub enum EncodingType {
    Plain,
    RunLength,
    DeltaBinary,
    Dictionary,
}

/// How the encoded bytes of a page are compressed.
#[derive(Debug, Clone, Copy, PartialEq, Eq, Structural)]
pub enum CompressionType {
    /// The bytes are stored as they are.
    Uncompressed,
    /// LZ4 block mode.
    Lz4,
}

/// Settings of one column of a segment.
#[derive(Debug, Clone)]
pub struct ColumnMeta {
    pub column_id: u32,
    pub name: String,
    pub field_type: FieldType,
    pub is_nullable: bool,
    pub encoding: EncodingType,
    pub compression: CompressionType,
    pub max_length: u32,
}

impl ColumnMeta {
    /// The encoding chosen for a type when none is given: delta for integers
    /// and dates, dictionary for bytes, plain for the rest.
    pub open spec fn default_encoding(field_type: FieldType) -> EncodingType {
        if field_type.integer() {
            EncodingType::DeltaBinary
        } else if field_type is Bytes {
            EncodingType::Dictionary
        } else {
            EncodingType::Plain
        }
    }

    pub fn new(column_id: u32, name: &str, field_type: FieldType) -> (m: Self)
        ensures
            m.column_id == column_id,
            m.name@ == name@,
            m.field_type == field_type,
            !m.is_nullable,
            m.encoding == Self::default_encoding(field_type),
            m.compression == CompressionType::Lz4,
            m.max_length == 65535,
    {
        let encoding = if field_type.is_integer() {
            EncodingType::DeltaBinary
        } else if field_type == FieldType::Bytes {
            EncodingType::Dictionary
        } else {
            EncodingType::Plain
        };
        Self {
            column_id,
            name: name.to_owned(),
            field_type,
            is_nullable: false,
            encoding,
            compression: CompressionType::Lz4,
            max_length: 65535,
        }
    }

    pub fn with_encoding(self, enc: EncodingType) -> (m: Self)
        ensures
            m == (Self { encoding: enc, ..self }),
    {
        let mut m = self;
        m.encoding = enc;
        m
    }

    pub fn with_compression(self, comp: CompressionType) -> (m: Self)
        ensures
            m == (Self { compression: comp, ..self }),
    {
        let mut m = self;
        m.compression = comp;
        m
    }

    pub fn nullable(self) -> (m: Self)
        ensures
            m == (Self { is_nullable: true, ..self }),
    {
        let mut m = self;
        m.is_nullable = true;
        m
    }

    /// A copy of the settings.
    pub fn duplicate(&self) -> (m: Self)
        ensures
            m.column_id == self.column_id,
            m.name@ == self.name@,
            m.field_type == self.field_type,
            m.is_nullable == self.is_nullable,
            m.encoding == self.encoding,
            m.compression == self.compression,
            m.max_length == self.max_length,
    {
        Self {
            column_id: self.column_id,
            name: self.name.clone(),
            field_type: self.field_type,
            is_nullable: self.is_nullable,
            encoding: self.encoding,
            compression: self.compression,
            max_length: self.max_length,
        }
    }
}

/// A run-time value of a column.
///
/// Floating-point values are held by their IEEE-754 bit patterns.
#[derive(Debug)]
pub enum Value {
    Null,
    Int8(i8),
    Int16(i16),
    Int32(i32),
    Int64(i64),
    /// Bit pattern of a 32-bit floating-point number.
    Float32(u32),
    /// Bit pattern of a 64-bit floating-point number.
    Float64(u64),
    Bytes(Vec<u8>),
}

/// The mathematical content of a [`Value`].
pub enum ValueView {
    Null,
    Int8(i8),
    Int16(i16),
    Int32(i32),
    Int64(i64),
    Float32(u32),
    Float64(u64),
    Bytes(Seq<u8>),
}

/// Whether a 32-bit pattern is a not-a-number.
pub open spec fn float32_is_nan(bits: u32) -> bool {
    (bits & 0x7fff_ffff) > 0x7f80_0000
}

/// Whether a 64-bit pattern is a not-a-number.
pub open spec fn float64_is_nan(bits: u64) -> bool {
    (bits & 0x7fff_ffff_ffff_ffff) > 0x7ff0_0000_0000_0000
}

/// Numeric equality of two 32-bit patterns: a not-a-number equals nothing,
/// and the two zeros equal each other.
pub open spec fn float32_equal(a: u32, b: u32) -> bool {
    !float32_is_nan(a) && !float32_is_nan(b) && (a == b || ((a & 0x7fff_ffff) == 0 && (b
        & 0x7fff_ffff) == 0))
}

/// Numeric equality of two 64-bit patterns: a not-a-number equals nothing,
/// and the two zeros equal each other.
pub open spec fn float64_equal(a: u64, b: u64) -> bool {
    !float64_is_nan(a) && !float64_is_nan(b) && (a == b || ((a & 0x7fff_ffff_ffff_ffff) == 0 && (b
        & 0x7fff_ffff_ffff_ffff) == 0))
}

impl ValueView {
    /// The value as a 64-bit integer, for the integer variants.
    pub open spec fn to_i64(self) -> Option<i64> {
        match self {
            ValueView::Int8(v) => Some(v as i64),
            ValueView::Int16(v) => Some(v as i64),
            ValueView::Int32(v) => Some(v as i64),
            ValueView::Int64(v) => Some(v),
            _ => None,
        }
    }

    /// The integer a value counts as where only integers can be stored:
    /// the value itself for the integer variants, zero for the others.
    pub open spec fn i64_projection(self) -> i64 {
        match self.to_i64() {
            Some(v) => v,
            None => 0,
        }
    }

    /// Whether the value is of an integer variant.
    pub open spec fn is_integer(self) -> bool {
        self.to_i64() is Some
    }

    /// The canonical byte string by which indexes compare values:
    /// big-endian for integers and for the bit patterns of floating-point
    /// numbers, the bytes themselves for `Bytes`, empty for `Null`.
    pub open spec fn sort_key(self) -> Seq<u8> {
        match self {
            ValueView::Null => Seq::<u8>::empty(),
            ValueView::Int8(v) => seq![v as u8],
            ValueView::Int16(v) => u16_be(v as u16),
            ValueView::Int32(v) => u32_be(v as u32),
            ValueView::Int64(v) => u64_be(v as u64),
            ValueView::Float32(bits) => u32_be(bits),
            ValueView::Float64(bits) => u64_be(bits),
            ValueView::Bytes(b) => b,
        }
    }

    /// Equality of two values: the same variant with equal content, where
    /// floating-point content is compared numerically.
    pub open spec fn same_as(self, other: ValueView) -> bool {
        match (self, other) {
            (ValueView::Null, ValueView::Null) => true,
            (ValueView::Int8(a), ValueView::Int8(b)) => a == b,
            (ValueView::Int16(a), ValueView::Int16(b)) => a == b,
            (ValueView::Int32(a), ValueView::Int32(b)) => a == b,
            (ValueView::Int64(a), ValueView::Int64(b)) => a == b,
            (ValueView::Float32(a), ValueView::Float32(b)) => float32_equal(a, b),
            (ValueView::Float64(a), ValueView::Float64(b)) => float64_equal(a, b),
            (ValueView::Bytes(a), ValueView::Bytes(b)) => a == b,
            _ => false,
        }
    }
}

impl View for Value {
    type V = ValueView;

    open spec fn view(&self) -> ValueView {
        match self {
            Value::Null => ValueView::Null,
            Value::Int8(v) => ValueView::Int8(*v),
            Value::Int16(v) => ValueView::Int16(*v),
            Value::Int32(v) => ValueView::Int32(*v),
            Value::Int64(v) => ValueView::Int64(*v),
            Value::Float32(bits) => ValueView::Float32(*bits),
            Value::Float64(bits) => ValueView::Float64(*bits),
            Value::Bytes(b) => ValueView::Bytes(b@),
        }
    }
}

/// The contents of a sequence of values.
pub open spec fn views(values: Seq<Value>) -> Seq<ValueView> {
    values.map_values(|v: Value| v@)
}

/// Whether two byte strings are equal.
pub fn bytes_equal(a: &[u8], b: &[u8]) -> (r: bool)
    ensures
        r == (a@ == b@),
{
    if a.len() != b.len() {
        return false;
    }
    let mut i: usize = 0;
    while i < a.len()
        invariant
            i <= a.len(),
            a.len() == b.len(),
            a@.subrange(0, i as int) == b@.subrange(0, i as int),
        decreases a.len() - i,
    {
        if a[i] != b[i] {
            return false;
        }
        i += 1;
        assert(a@.subrange(0, i as int) =~= a@.subrange(0, i - 1).push(a@[i - 1]));
        assert(b@.subrange(0, i as int) =~= b@.subrange(0, i - 1).push(b@[i - 1]));
    }
    assert(a@.subrange(0, i as int) =~= a@);
    assert(b@.subrange(0, i as int) =~= b@);
    true
}

/// A copy of a byte string.
pub fn copy_bytes(bytes: &[u8]) -> (r: Vec<u8>)
    ensures
        r@ == bytes@,
{
    let mut r: Vec<u8> = Vec::new();
    push_bytes(&mut r, bytes);
    assert(r@ =~= bytes@);
    r
}

fn float32_bits_equal(a: u32, b: u32) -> (r: bool)
    ensures
        r == float32_equal(a, b),
{
    let ma: u32 = a & 0x7fff_ffff;
    let mb: u32 = b & 0x7fff_ffff;
    ma <= 0x7f80_0000 && mb <= 0x7f80_0000 && (a == b || (ma == 0 && mb == 0))
}

fn float64_bits_equal(a: u64, b: u64) -> (r: bool)
    ensures
        r == float64_equal(a, b),
{
    let ma: u64 = a & 0x7fff_ffff_ffff_ffff;
    let mb: u64 = b & 0x7fff_ffff_ffff_ffff;
    ma <= 0x7ff0_0000_0000_0000 && mb <= 0x7ff0_0000_0000_0000 && (a == b || (ma == 0 && mb == 0))
}

impl Value {
    /// The value as a 64-bit integer; `None` unless it is an integer.
    pub fn as_i64(&self) -> (r: Option<i64>)
        ensures
            r == self@.to_i64(),
    {
        match self {
            Value::Int8(v) => Some(*v as i64),
            Value::Int16(v) => Some(*v as i64),
            Value::Int32(v) => Some(*v as i64),
            Value::Int64(v) => Some(*v),
            _ => None,
        }
    }

    /// The bytes of a `Bytes` value; `None` for every other variant.
    pub fn as_bytes(&self) -> (r: Option<&[u8]>)
        ensures
            match self@ {
                ValueView::Bytes(b) => r is Some && r->0@ == b,
                _ => r is None,
            },
    {
        match self {
            Value::Bytes(b) => Some(b.as_slice()),
            _ => None,
        }
    }

    /// The byte string by which indexes compare the value.
    pub fn to_sort_key(&self) -> (key: Vec<u8>)
        ensures
            key@ == self@.sort_key(),
    {
        let mut key: Vec<u8> = Vec::new();
        match self {
            Value::Null => {},
            Value::Int8(v) => {
                key.push(*v as u8);
            },
            Value::Int16(v) => {
                let x: u16 = *v as u16;
                key.push((x >> 8) as u8);
                key.push(x as u8);
            },
            Value::Int32(v) => {
                push_u32_be(&mut key, *v as u32);
            },
            Value::Int64(v) => {
                push_u64_be(&mut key, *v as u64);
            },
            Value::Float32(bits) => {
                push_u32_be(&mut key, *bits);
            },
            Value::Float64(bits) => {
                push_u64_be(&mut key, *bits);
            },
            Value::Bytes(b) => {
                push_bytes(&mut key, b.as_slice());
            },
        }
        assert(key@ =~= self@.sort_key());
        key
    }

    /// A copy of the value.
    pub fn duplicate(&self) -> (r: Value)
        ensures
            r@ == self@,
    {
        match self {
            Value::Null => Value::Null,
            Value::Int8(v) => Value::Int8(*v),
            Value::Int16(v) => Value::Int16(*v),
            Value::Int32(v) => Value::Int32(*v),
            Value::Int64(v) => Value::Int64(*v),
            Value::Float32(bits) => Value::Float32(*bits),
            Value::Float64(bits) => Value::Float64(*bits),
            Value::Bytes(b) => Value::Bytes(copy_bytes(b.as_slice())),
        }
    }

    /// Whether two values are equal, floating-point content being compared
    /// numerically.
    pub fn equals(&self, other: &Value) -> (r: bool)
        ensures
            r == self@.same_as(other@),
    {
        match (self, other) {
            (Value::Null, Value::Null) => true,
            (Value::Int8(a), Value::Int8(b)) => *a == *b,
            (Value::Int16(a), Value::Int16(b)) => *a == *b,
            (Value::Int32(a), Value::Int32(b)) => *a == *b,
            (Value::Int64(a), Value::Int64(b)) => *a == *b,
            (Value::Float32(a), Value::Float32(b)) => float32_bits_equal(*a, *b),
            (Value::Float64(a), Value::Float64(b)) => float64_bits_equal(*a, *b),
            (Value::Bytes(a), Value::Bytes(b)) => bytes_equal(a.as_slice(), b.as_slice()),
            _ => false,
        }
    }
}

fn push_u32_be(out: &mut Vec<u8>, x: u32)
    ensures
        final(out)@ == old(out)@ + u32_be(x),
{
    out.push((x >> 24) as u8);
    out.push((x >> 16) as u8);
    out.push((x >> 8) as u8);
    out.push(x as u8);
    assert(out@ =~= old(out)@ + u32_be(x));
}

fn push_u64_be(out: &mut Vec<u8>, x: u64)
    ensures
        final(out)@ == old(out)@ + u64_be(x),
{
    out.push((x >> 56) as u8);
    out.push((x >> 48) as u8);
    out.push((x >> 40) as u8);
    out.push((x >> 32) as u8);
    out.push((x >> 24) as u8);
    out.push((x >> 16) as u8);
    out.push((x >> 8) as u8);
    out.push(x as u8);
    assert(out@ =~= old(out)@ + u64_be(x));
}

impl Clone for Value {
    fn clone(&self) -> (r: Self)
        ensures
            r@ == self@,
    {
        self.duplicate()
    }
}

impl PartialEq for Value {
    fn eq(&self, other: &Self) -> (r: bool) {
        self.equals(other)
    }
}

impl PartialEqSpecImpl for Value {
    open spec fn obeys_eq_spec() -> bool {
        true
    }

    open spec fn eq_spec(&self, other: &Self) -> bool {
        self@.same_as(other@)
    }
}

} // verus!
