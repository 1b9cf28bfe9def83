//! Values and the bytes that stand for them.
use vstd::prelude::*;
use vstd::slice::slice_to_vec;
use crate::codec::{be_bytes, be_value, get_be, lemma_be_value_of_bytes, lemma_pow256, pow256, put_be};
use crate::error::Error;
use crate::types::{fixed_width, is_nanos_type, is_timestamp_nanos, millis_nanos_to_ns, pair_nanos, width_of, DataType, TimeUnit};
use crate::varint;
use crate::varint::{lemma_varint_bounds, varint_at, varint_bytes, varint_tail};

verus! {

/// A value; floating point numbers are held by their bits.
#[derive(Debug, PartialEq, Eq)]
pub enum Value {
    Null,
    Boolean(bool),
    TinyInt(i8),
    SmallInt(i16),
    Integer(i32),
    BigInt(i64),
    Float(u32),
    Double(u64),
    Date(i32),
    Time(i32),
    String(Vec<u8>),
    Bytes(Vec<u8>),
    DecimalCompact(i64),
    DecimalLarge(Vec<u8>),
    TimestampMillis(i64),
    TimestampMicros(i64),
    TimestampNanos { millis: i64, nanos_of_milli: i32 },
}

impl Clone for Value {
    fn clone(&self) -> (copy: Self)
        ensures
            copy@ == self@,
    {
        match self {
            Value::Null => Value::Null,
            Value::Boolean(x) => Value::Boolean(*x),
            Value::TinyInt(x) => Value::TinyInt(*x),
            Value::SmallInt(x) => Value::SmallInt(*x),
            Value::Integer(x) => Value::Integer(*x),
            Value::BigInt(x) => Value::BigInt(*x),
            Value::Float(x) => Value::Float(*x),
            Value::Double(x) => Value::Double(*x),
            Value::Date(x) => Value::Date(*x),
            Value::Time(x) => Value::Time(*x),
            Value::String(x) => Value::String(slice_to_vec(x.as_slice())),
            Value::Bytes(x) => Value::Bytes(slice_to_vec(x.as_slice())),
            Value::DecimalCompact(x) => Value::DecimalCompact(*x),
            Value::DecimalLarge(x) => Value::DecimalLarge(slice_to_vec(x.as_slice())),
            Value::TimestampMillis(x) => Value::TimestampMillis(*x),
            Value::TimestampMicros(x) => Value::TimestampMicros(*x),
            Value::TimestampNanos { millis, nanos_of_milli } => Value::TimestampNanos {
                millis: *millis,
                nanos_of_milli: *nanos_of_milli,
            },
        }
    }
}

/// Copies values.
pub fn copy_values(values: &[Value]) -> (copies: Vec<Value>)
    ensures
        copies@.len() == values@.len(),
        forall|i: int| 0 <= i < values@.len() ==> (#[trigger] copies@[i])@ == values@[i]@,
{
    let mut copies: Vec<Value> = Vec::new();
    let mut i: usize = 0;
    while i < values.len()
        invariant
            i <= values@.len(),
            copies@.len() == i,
            forall|k: int| 0 <= k < i ==> (#[trigger] copies@[k])@ == values@[k]@,
        decreases values@.len() - i,
    {
        copies.push(values[i].clone());
        i += 1;
    }
    copies
}

/// What a value is, apart from where its bytes are kept.
pub enum ValueView {
    Null,
    Boolean(bool),
    TinyInt(i8),
    SmallInt(i16),
    Integer(i32),
    BigInt(i64),
    Float(u32),
    Double(u64),
    Date(i32),
    Time(i32),
    String(Seq<u8>),
    Bytes(Seq<u8>),
    DecimalCompact(i64),
    DecimalLarge(Seq<u8>),
    TimestampMillis(i64),
    TimestampMicros(i64),
    TimestampNanos { millis: i64, nanos_of_milli: i32 },
}

impl View for Value {
    type V = ValueView;

    open spec fn view(&self) -> ValueView {
        match *self {
            Value::Null => ValueView::Null,
            Value::Boolean(x) => ValueView::Boolean(x),
            Value::TinyInt(x) => ValueView::TinyInt(x),
            Value::SmallInt(x) => ValueView::SmallInt(x),
            Value::Integer(x) => ValueView::Integer(x),
            Value::BigInt(x) => ValueView::BigInt(x),
            Value::Float(x) => ValueView::Float(x),
            Value::Double(x) => ValueView::Double(x),
            Value::Date(x) => ValueView::Date(x),
            Value::Time(x) => ValueView::Time(x),
            Value::String(x) => ValueView::String(x@),
            Value::Bytes(x) => ValueView::Bytes(x@),
            Value::DecimalCompact(x) => ValueView::DecimalCompact(x),
            Value::DecimalLarge(x) => ValueView::DecimalLarge(x@),
            Value::TimestampMillis(x) => ValueView::TimestampMillis(x),
            Value::TimestampMicros(x) => ValueView::TimestampMicros(x),
            Value::TimestampNanos { millis, nanos_of_milli } => ValueView::TimestampNanos { millis, nanos_of_milli },
        }
    }
}

/// A value whose bytes are borrowed.
#[derive(Clone, Copy, Debug, PartialEq, Eq)]
#[non_exhaustive]
pub enum EncodedValueRef<'a> {
    Null,
    Boolean(bool),
    Int8(i8),
    Int16(i16),
    Int32(i32),
    Int64(i64),
    Float32(u32),
    Float64(u64),
    Utf8(&'a [u8]),
    Binary(&'a [u8]),
    DecimalCompact(i64),
    DecimalLarge(&'a [u8]),
    Date32(i32),
    Time32(i32),
    TimestampMillis(i64),
    TimestampMicros(i64),
    TimestampNanos { millis: i64, nanos_of_milli: i32 },
}

impl<'a> View for EncodedValueRef<'a> {
    type V = ValueView;

    open spec fn view(&self) -> ValueView {
        match *self {
            EncodedValueRef::Null => ValueView::Null,
            EncodedValueRef::Boolean(x) => ValueView::Boolean(x),
            EncodedValueRef::Int8(x) => ValueView::TinyInt(x),
            EncodedValueRef::Int16(x) => ValueView::SmallInt(x),
            EncodedValueRef::Int32(x) => ValueView::Integer(x),
            EncodedValueRef::Int64(x) => ValueView::BigInt(x),
            EncodedValueRef::Float32(x) => ValueView::Float(x),
            EncodedValueRef::Float64(x) => ValueView::Double(x),
            EncodedValueRef::Utf8(x) => ValueView::String(x@),
            EncodedValueRef::Binary(x) => ValueView::Bytes(x@),
            EncodedValueRef::DecimalCompact(x) => ValueView::DecimalCompact(x),
            EncodedValueRef::DecimalLarge(x) => ValueView::DecimalLarge(x@),
            EncodedValueRef::Date32(x) => ValueView::Date(x),
            EncodedValueRef::Time32(x) => ValueView::Time(x),
            EncodedValueRef::TimestampMillis(x) => ValueView::TimestampMillis(x),
            EncodedValueRef::TimestampMicros(x) => ValueView::TimestampMicros(x),
            EncodedValueRef::TimestampNanos { millis, nanos_of_milli } => ValueView::TimestampNanos { millis, nanos_of_milli },
        }
    }
}

// ---------------------------------------------------------------- bytes of values

/// The bytes of a value; those of variable length come behind their length.
pub open spec fn encoded_value(v: ValueView) -> Seq<u8> {
    match v {
        ValueView::Null => Seq::empty(),
        ValueView::Boolean(x) => seq![if x { 1u8 } else { 0u8 }],
        ValueView::TinyInt(x) => seq![x as u8],
        ValueView::SmallInt(x) => be_bytes((x as u16) as nat, 2),
        ValueView::Integer(x) => be_bytes((x as u32) as nat, 4),
        ValueView::BigInt(x) => be_bytes((x as u64) as nat, 8),
        ValueView::Float(x) => be_bytes(x as nat, 4),
        ValueView::Double(x) => be_bytes(x as nat, 8),
        ValueView::Date(x) => be_bytes((x as u32) as nat, 4),
        ValueView::Time(x) => be_bytes((x as u32) as nat, 4),
        ValueView::String(x) => varint_bytes(x.len()) + x,
        ValueView::Bytes(x) => varint_bytes(x.len()) + x,
        ValueView::DecimalCompact(x) => be_bytes((x as u64) as nat, 8),
        ValueView::DecimalLarge(x) => varint_bytes(x.len()) + x,
        ValueView::TimestampMillis(x) => be_bytes((x as u64) as nat, 8),
        ValueView::TimestampMicros(x) => be_bytes((x as u64) as nat, 8),
        ValueView::TimestampNanos { millis, nanos_of_milli } => be_bytes((millis as u64) as nat, 8) + be_bytes(
            (nanos_of_milli as u32) as nat,
            4,
        ),
    }
}

/// `v` is a value that a column of type `dt` holds.
pub open spec fn value_fits(dt: DataType, v: ValueView) -> bool {
    match dt {
        DataType::Boolean => v is Boolean,
        DataType::Int8 => v is TinyInt,
        DataType::Int16 => v is SmallInt,
        DataType::Int32 => v is Integer,
        DataType::Int64 => v is BigInt,
        DataType::Float32 => v is Float,
        DataType::Float64 => v is Double,
        DataType::Date32 => v is Date,
        DataType::Time32 => v is Time,
        DataType::Utf8 => v matches ValueView::String(x) && x.len() <= u32::MAX,
        DataType::Binary => v matches ValueView::Bytes(x) && x.len() <= u32::MAX,
        DataType::Decimal128(precision, _) => if precision <= 18 {
            v is DecimalCompact
        } else {
            v matches ValueView::DecimalLarge(x) && x.len() <= u32::MAX
        },
        DataType::Timestamp(TimeUnit::Millisecond, _) => v is TimestampMillis,
        DataType::Timestamp(TimeUnit::Microsecond, _) => v is TimestampMicros,
        DataType::Timestamp(TimeUnit::Nanosecond, _) => v is TimestampNanos,
        DataType::LegacyTimestampNanos(_, _) => v is TimestampNanos,
        DataType::ListOf(_, _) => false,
        DataType::MapOf(_, _, _) => false,
    }
}

/// The part of the bytes behind the length.
pub open spec fn payload(b: Seq<u8>) -> Seq<u8> {
    match varint_at(b, 0) {
        Ok((n, p)) => b.subrange(p, p + n),
        Err(_) => Seq::empty(),
    }
}

/// The value that the bytes stand for in a column of type `dt`.
pub open spec fn decoded_value(dt: DataType, b: Seq<u8>) -> ValueView {
    match dt {
        DataType::Boolean => ValueView::Boolean(b[0] != 0),
        DataType::Int8 => ValueView::TinyInt(b[0] as i8),
        DataType::Int16 => ValueView::SmallInt((be_value(b) as u16) as i16),
        DataType::Int32 => ValueView::Integer((be_value(b) as u32) as i32),
        DataType::Int64 => ValueView::BigInt((be_value(b) as u64) as i64),
        DataType::Float32 => ValueView::Float(be_value(b) as u32),
        DataType::Float64 => ValueView::Double(be_value(b) as u64),
        DataType::Date32 => ValueView::Date((be_value(b) as u32) as i32),
        DataType::Time32 => ValueView::Time((be_value(b) as u32) as i32),
        DataType::Utf8 => ValueView::String(payload(b)),
        DataType::Binary => ValueView::Bytes(payload(b)),
        DataType::Decimal128(precision, _) => if precision <= 18 {
            ValueView::DecimalCompact((be_value(b) as u64) as i64)
        } else {
            ValueView::DecimalLarge(payload(b))
        },
        DataType::Timestamp(TimeUnit::Millisecond, _) => ValueView::TimestampMillis((be_value(b) as u64) as i64),
        DataType::Timestamp(TimeUnit::Microsecond, _) => ValueView::TimestampMicros((be_value(b) as u64) as i64),
        DataType::Timestamp(TimeUnit::Nanosecond, _) => ValueView::TimestampNanos {
            millis: (be_value(b.subrange(0, 8)) as u64) as i64,
            nanos_of_milli: (be_value(b.subrange(8, 12)) as u32) as i32,
        },
        DataType::LegacyTimestampNanos(_, _) => ValueView::TimestampNanos {
            millis: (be_value(b.subrange(0, 8)) as u64) as i64,
            nanos_of_milli: (be_value(b.subrange(8, 12)) as u32) as i32,
        },
        DataType::ListOf(_, _) => ValueView::Null,
        DataType::MapOf(_, _, _) => ValueView::Null,
    }
}

/// How many bytes the value at `pos` takes; `short` is the error for a value of fixed length that
/// the data cut off.
pub open spec fn value_size(dt: DataType, data: Seq<u8>, pos: int, short: Error) -> Result<int, Error> {
    if width_of(dt) > 0 {
        if pos + width_of(dt) <= data.len() {
            Ok(width_of(dt))
        } else {
            Err(short)
        }
    } else {
        match varint_at(data, pos) {
            Ok((n, p)) => if p + n <= data.len() {
                Ok(p + n - pos)
            } else {
                Err(Error::TruncatedValue)
            },
            Err(_) => Err(Error::TruncatedValueLength),
        }
    }
}

/// `b` is one whole value of a column of type `dt`.
pub open spec fn is_value(dt: DataType, b: Seq<u8>) -> bool {
    value_size(dt, b, 0, Error::TruncatedVarint) == Ok::<int, Error>(b.len() as int)
}

/// A timestamp is checked when it is read; other values are taken as they are.
pub open spec fn checked_value(dt: DataType, v: ValueView) -> Result<ValueView, Error> {
    match v {
        ValueView::TimestampNanos { millis, nanos_of_milli } => if is_nanos_type(dt) {
            match pair_nanos(millis, nanos_of_milli) {
                Ok(_) => Ok(v),
                Err(e) => Err(e),
            }
        } else {
            Ok(v)
        },
        _ => Ok(v),
    }
}

// ---------------------------------------------------------------- lemmas

pub proof fn lemma_signed_casts(a: i8, b: i16, c: i32, d: i64)
    ensures
        (a as u8) as i8 == a,
        (b as u16) as i16 == b,
        (c as u32) as i32 == c,
        (d as u64) as i64 == d,
{
    assert((a as u8) as i8 == a) by (bit_vector);
    assert((b as u16) as i16 == b) by (bit_vector);
    assert((c as u32) as i32 == c) by (bit_vector);
    assert((d as u64) as i64 == d) by (bit_vector);
}

proof fn lemma_tail_in_part(data: Seq<u8>, start: int, end: int, pos: int, read: nat)
    requires
        0 <= start <= pos,
        end <= data.len(),
        read < 5,
        varint_tail(data, pos, read) matches Ok((_, next)) && next <= end,
    ensures
        varint_tail(data, pos, read) matches Ok((v, next)) && varint_tail(data.subrange(start, end), pos - start, read) == Ok::<
            (nat, int),
            Error,
        >((v, next - start)),
    decreases 5 - read,
{
    varint::lemma_tail_bounds(data, pos, read);
    if data[pos] >= 128 {
        lemma_tail_in_part(data, start, end, pos + 1, read + 1);
    }
}

/// A number is read the same in a part of the data that holds it.
pub proof fn lemma_varint_in_part(data: Seq<u8>, start: int, end: int, pos: int)
    requires
        0 <= start <= pos,
        end <= data.len(),
        varint_at(data, pos) matches Ok((_, next)) && next <= end,
    ensures
        varint_at(data, pos) matches Ok((v, next)) && varint_at(data.subrange(start, end), pos - start) == Ok::<(nat, int), Error>(
            (v, next - start),
        ),
{
    lemma_tail_in_part(data, start, end, pos, 0);
}

pub proof fn lemma_value_size(dt: DataType, data: Seq<u8>, pos: int, short: Error)
    requires
        0 <= pos,
    ensures
        value_size(dt, data, pos, short) matches Ok(size) ==> {
            &&& 0 < size
            &&& pos + size <= data.len()
            &&& is_value(dt, data.subrange(pos, pos + size))
        },
{
    lemma_varint_bounds(data, pos);
    if let Ok(size) = value_size(dt, data, pos, short) {
        if width_of(dt) <= 0 {
            lemma_varint_in_part(data, pos, pos + size, pos);
        }
    }
}

/// A value is found again in the data that holds it.
pub proof fn lemma_value_in_data(dt: DataType, data: Seq<u8>, pos: int, b: Seq<u8>, short: Error)
    requires
        0 <= pos,
        is_value(dt, b),
        pos + b.len() <= data.len(),
        data.subrange(pos, pos + b.len()) == b,
    ensures
        value_size(dt, data, pos, short) == Ok::<int, Error>(b.len() as int),
{
    if width_of(dt) <= 0 {
        lemma_varint_bounds(b, 0);
        let (n, p) = varint_at(b, 0)->Ok_0;
        lemma_varint_from_part(data, pos, pos + b.len(), 0, 0);
    }
}

proof fn lemma_varint_from_part(data: Seq<u8>, start: int, end: int, pos: int, read: nat)
    requires
        0 <= start <= end,
        0 <= pos,
        end <= data.len(),
        read < 5,
        varint_tail(data.subrange(start, end), pos, read) is Ok,
    ensures
        varint_tail(data.subrange(start, end), pos, read) matches Ok((v, next)) && varint_tail(data, start + pos, read) == Ok::<
            (nat, int),
            Error,
        >((v, next + start)),
    decreases 5 - read,
{
    let part = data.subrange(start, end);
    varint::lemma_tail_bounds(part, pos, read);
    if part[pos] >= 128 {
        lemma_varint_from_part(data, start, end, pos + 1, read + 1);
    }
}

/// A value of the column's type is read back from its bytes, and they are one whole value.
pub proof fn decode_undoes_encode(dt: DataType, v: ValueView)
    requires
        value_fits(dt, v),
    ensures
        is_value(dt, encoded_value(v)),
        decoded_value(dt, encoded_value(v)) == v,
{
    let b = encoded_value(v);
    lemma_pow256();
    match v {
        ValueView::TinyInt(x) => {
            lemma_signed_casts(x, 0, 0, 0);
        },
        ValueView::SmallInt(x) => {
            lemma_signed_casts(0, x, 0, 0);
            lemma_be_value_of_bytes((x as u16) as nat, 2);
        },
        ValueView::Integer(x) => {
            lemma_signed_casts(0, 0, x, 0);
            lemma_be_value_of_bytes((x as u32) as nat, 4);
        },
        ValueView::Date(x) => {
            lemma_signed_casts(0, 0, x, 0);
            lemma_be_value_of_bytes((x as u32) as nat, 4);
        },
        ValueView::Time(x) => {
            lemma_signed_casts(0, 0, x, 0);
            lemma_be_value_of_bytes((x as u32) as nat, 4);
        },
        ValueView::BigInt(x) => {
            lemma_signed_casts(0, 0, 0, x);
            lemma_be_value_of_bytes((x as u64) as nat, 8);
        },
        ValueView::DecimalCompact(x) => {
            lemma_signed_casts(0, 0, 0, x);
            lemma_be_value_of_bytes((x as u64) as nat, 8);
        },
        ValueView::TimestampMillis(x) => {
            lemma_signed_casts(0, 0, 0, x);
            lemma_be_value_of_bytes((x as u64) as nat, 8);
        },
        ValueView::TimestampMicros(x) => {
            lemma_signed_casts(0, 0, 0, x);
            lemma_be_value_of_bytes((x as u64) as nat, 8);
        },
        ValueView::Float(x) => {
            lemma_be_value_of_bytes(x as nat, 4);
        },
        ValueView::Double(x) => {
            lemma_be_value_of_bytes(x as nat, 8);
        },
        ValueView::TimestampNanos { millis, nanos_of_milli } => {
            lemma_signed_casts(0, 0, nanos_of_milli, millis);
            lemma_be_value_of_bytes((millis as u64) as nat, 8);
            lemma_be_value_of_bytes((nanos_of_milli as u32) as nat, 4);
            assert(b.subrange(0, 8) =~= be_bytes((millis as u64) as nat, 8));
            assert(b.subrange(8, 12) =~= be_bytes((nanos_of_milli as u32) as nat, 4));
        },
        ValueView::String(x) => {
            lemma_payload(x);
        },
        ValueView::Bytes(x) => {
            lemma_payload(x);
        },
        ValueView::DecimalLarge(x) => {
            lemma_payload(x);
        },
        _ => {},
    }
}

proof fn lemma_payload(x: Seq<u8>)
    requires
        x.len() <= u32::MAX,
    ensures
        ({
            let b = varint_bytes(x.len()) + x;
            &&& varint_at(b, 0) == Ok::<(nat, int), Error>((x.len(), varint_bytes(x.len()).len() as int))
            &&& payload(b) == x
        }),
{
    let head = varint_bytes(x.len());
    let b = head + x;
    assert(b.subrange(0, head.len() as int) =~= head);
    varint::decode_undoes_encode(b, 0, x.len());
    assert(b.subrange(head.len() as int, (head.len() + x.len()) as int) =~= x);
}

// ---------------------------------------------------------------- executable functions

/// The key of a value of at most eight bytes: its bytes as a number.
pub fn extract_fixed_key(buf: &[u8], offset: usize, width: i32) -> (key: u64)
    requires
        0 < width <= 8,
        offset + width <= buf.len(),
    ensures
        key == be_value(buf@.subrange(offset as int, offset + width)),
        key < pow256(width as nat),
{
    get_be(buf, offset, width as usize)
}

/// Appends the bytes of a key.
pub fn write_fixed_key_to_vec(buf: &mut Vec<u8>, key: u64, width: i32)
    requires
        0 < width,
    ensures
        final(buf)@ == old(buf)@ + be_bytes(key as nat, width as nat),
{
    put_be(buf, key, width as usize);
}

pub fn read_u64(buf: &[u8], pos: usize) -> (v: u64)
    requires
        pos + 8 <= buf.len(),
    ensures
        v == be_value(buf@.subrange(pos as int, pos + 8)),
{
    get_be(buf, pos, 8)
}

pub fn read_i64(buf: &[u8], pos: usize) -> (v: i64)
    requires
        pos + 8 <= buf.len(),
    ensures
        v == (be_value(buf@.subrange(pos as int, pos + 8)) as u64) as i64,
{
    get_be(buf, pos, 8) as i64
}

pub fn read_u32(buf: &[u8], pos: usize) -> (v: u32)
    requires
        pos + 4 <= buf.len(),
    ensures
        v == be_value(buf@.subrange(pos as int, pos + 4)),
{
    let v: u64 = get_be(buf, pos, 4);
    proof {
        lemma_pow256();
    }
    v as u32
}

pub fn read_i32(buf: &[u8], pos: usize) -> (v: i32)
    requires
        pos + 4 <= buf.len(),
    ensures
        v == (be_value(buf@.subrange(pos as int, pos + 4)) as u32) as i32,
{
    read_u32(buf, pos) as i32
}

pub fn read_i16(buf: &[u8], pos: usize) -> (v: i16)
    requires
        pos + 2 <= buf.len(),
    ensures
        v == (be_value(buf@.subrange(pos as int, pos + 2)) as u16) as i16,
{
    let v: u64 = get_be(buf, pos, 2);
    proof {
        lemma_pow256();
    }
    (v as u16) as i16
}

/// Reads a value of fixed length.
pub fn read_typed_value(dt: &DataType, buf: &[u8], pos: usize) -> (value: Value)
    requires
        width_of(*dt) > 0,
        pos + width_of(*dt) <= buf.len(),
    ensures
        value@ == decoded_value(*dt, buf@.subrange(pos as int, pos + width_of(*dt))),
{
    let ghost b = buf@.subrange(pos as int, pos + width_of(*dt));
    match dt {
        DataType::Boolean => Value::Boolean(buf[pos] != 0),
        DataType::Int8 => Value::TinyInt(buf[pos] as i8),
        DataType::Int16 => Value::SmallInt(read_i16(buf, pos)),
        DataType::Int32 => Value::Integer(read_i32(buf, pos)),
        DataType::Date32 => Value::Date(read_i32(buf, pos)),
        DataType::Time32 => Value::Time(read_i32(buf, pos)),
        DataType::Float32 => Value::Float(read_u32(buf, pos)),
        DataType::Int64 => Value::BigInt(read_i64(buf, pos)),
        DataType::Float64 => Value::Double(read_u64(buf, pos)),
        DataType::Decimal128(_, _) => Value::DecimalCompact(read_i64(buf, pos)),
        DataType::Timestamp(TimeUnit::Millisecond, _) => Value::TimestampMillis(read_i64(buf, pos)),
        DataType::Timestamp(TimeUnit::Microsecond, _) => Value::TimestampMicros(read_i64(buf, pos)),
        DataType::Timestamp(TimeUnit::Nanosecond, _) => {
            assert(b.subrange(0, 8) =~= buf@.subrange(pos as int, pos + 8));
            assert(b.subrange(8, 12) =~= buf@.subrange(pos + 8, pos + 12));
            Value::TimestampNanos { millis: read_i64(buf, pos), nanos_of_milli: read_i32(buf, pos + 8) }
        },
        DataType::LegacyTimestampNanos(_, _) => {
            assert(b.subrange(0, 8) =~= buf@.subrange(pos as int, pos + 8));
            assert(b.subrange(8, 12) =~= buf@.subrange(pos + 8, pos + 12));
            Value::TimestampNanos { millis: read_i64(buf, pos), nanos_of_milli: read_i32(buf, pos + 8) }
        },
        _ => Value::Null,
    }
}

/// Reads a value of variable length; returns it with the number of its bytes.
pub fn read_variable_value(dt: &DataType, buf: &[u8], pos: usize) -> (result: Result<(Value, usize), Error>)
    requires
        width_of(*dt) <= 0,
    ensures
        result matches Ok((value, size)) ==> value_size(*dt, buf@, pos as int, Error::TruncatedVarint) == Ok::<int, Error>(
            size as int,
        ) && value@ == decoded_value(*dt, buf@.subrange(pos as int, pos + size)),
        result matches Err(e) ==> value_size(*dt, buf@, pos as int, Error::TruncatedVarint) == Err::<int, Error>(e),
{
    let mut p: usize = pos;
    let len: usize = match varint::decode(buf, &mut p) {
        Ok(len) => len as usize,
        Err(_) => {
            return Err(Error::TruncatedValueLength);
        },
    };
    if len > buf.len() - p {
        return Err(Error::TruncatedValue);
    }
    let bytes: Vec<u8> = vstd::slice::slice_to_vec(vstd::slice::slice_subrange(buf, p, p + len));
    proof {
        lemma_varint_in_part(buf@, pos as int, p + len, pos as int);
        let b = buf@.subrange(pos as int, p + len);
        assert(b.subrange(p - pos, p + len - pos) =~= buf@.subrange(p as int, p + len));
    }
    let value = match dt {
        DataType::Utf8 => Value::String(bytes),
        DataType::Binary => Value::Bytes(bytes),
        DataType::Decimal128(_, _) => Value::DecimalLarge(bytes),
        _ => Value::Null,
    };
    Ok((value, p + len - pos))
}

/// Reads the value at `pos`; `short` tells of a value of fixed length that the data cut off.
pub fn read_value(dt: &DataType, buf: &[u8], pos: usize, short: Error) -> (result: Result<(Value, usize), Error>)
    ensures
        result matches Ok((value, size)) ==> value_size(*dt, buf@, pos as int, short) == Ok::<int, Error>(size as int)
            && value@ == decoded_value(*dt, buf@.subrange(pos as int, pos + size)),
        result matches Err(e) ==> value_size(*dt, buf@, pos as int, short) == Err::<int, Error>(e),
{
    let width: i32 = fixed_width(dt);
    if width > 0 {
        if pos > buf.len() || buf.len() - pos < width as usize {
            return Err(short);
        }
        Ok((read_typed_value(dt, buf, pos), width as usize))
    } else {
        read_variable_value(dt, buf, pos)
    }
}

fn validate_encoded_value<'a>(dt: &DataType, value: EncodedValueRef<'a>) -> (result: Result<EncodedValueRef<'a>, Error>)
    ensures
        result matches Ok(v) ==> checked_value(*dt, value@) == Ok::<ValueView, Error>(v@) && v == value,
        result matches Err(e) ==> checked_value(*dt, value@) == Err::<ValueView, Error>(e),
{
    if let EncodedValueRef::TimestampNanos { millis, nanos_of_milli } = value {
        if is_timestamp_nanos(dt) {
            match millis_nanos_to_ns(millis, nanos_of_milli) {
                Ok(_) => {},
                Err(e) => {
                    return Err(e);
                },
            }
        }
    }
    Ok(value)
}

/// A value that is held, as one that is borrowed.
pub fn encoded_value_ref<'a>(dt: &DataType, value: &'a Value) -> (result: Result<EncodedValueRef<'a>, Error>)
    ensures
        result matches Ok(v) ==> checked_value(*dt, value@) == Ok::<ValueView, Error>(v@),
        result matches Err(e) ==> checked_value(*dt, value@) == Err::<ValueView, Error>(e),
{
    let borrowed = match value {
        Value::Null => EncodedValueRef::Null,
        Value::Boolean(x) => EncodedValueRef::Boolean(*x),
        Value::TinyInt(x) => EncodedValueRef::Int8(*x),
        Value::SmallInt(x) => EncodedValueRef::Int16(*x),
        Value::Integer(x) => EncodedValueRef::Int32(*x),
        Value::BigInt(x) => EncodedValueRef::Int64(*x),
        Value::Float(x) => EncodedValueRef::Float32(*x),
        Value::Double(x) => EncodedValueRef::Float64(*x),
        Value::Date(x) => EncodedValueRef::Date32(*x),
        Value::Time(x) => EncodedValueRef::Time32(*x),
        Value::String(x) => EncodedValueRef::Utf8(x.as_slice()),
        Value::Bytes(x) => EncodedValueRef::Binary(x.as_slice()),
        Value::DecimalCompact(x) => EncodedValueRef::DecimalCompact(*x),
        Value::DecimalLarge(x) => EncodedValueRef::DecimalLarge(x.as_slice()),
        Value::TimestampMillis(x) => EncodedValueRef::TimestampMillis(*x),
        Value::TimestampMicros(x) => EncodedValueRef::TimestampMicros(*x),
        Value::TimestampNanos { millis, nanos_of_milli } => EncodedValueRef::TimestampNanos {
            millis: *millis,
            nanos_of_milli: *nanos_of_milli,
        },
    };
    validate_encoded_value(dt, borrowed)
}

/// Reads the value at `position` without copying its bytes; returns it with the number of its
/// bytes. Lists and maps have no values of their own.
pub fn read_encoded_value<'a>(dt: &DataType, data: &'a [u8], position: usize) -> (result: Result<
    (EncodedValueRef<'a>, usize),
    Error,
>)
    ensures
        result matches Ok((value, size)) ==> encoded_value_at(*dt, data@, position as int) == Ok::<(ValueView, int), Error>(
            (value@, size as int),
        ) && position + size <= data.len(),
        result matches Err(e) ==> encoded_value_at(*dt, data@, position as int) == Err::<(ValueView, int), Error>(e),
{
    let width: i32 = fixed_width(dt);
    if width <= 0 {
        let mut p: usize = position;
        let len: usize = match varint::decode(data, &mut p) {
            Ok(len) => len as usize,
            Err(_) => {
                return Err(Error::TruncatedValueLength);
            },
        };
        if len > data.len() - p {
            return Err(Error::TruncatedValue);
        }
        let bytes: &'a [u8] = vstd::slice::slice_subrange(data, p, p + len);
        proof {
            lemma_varint_in_part(data@, position as int, p + len, position as int);
            let b = data@.subrange(position as int, p + len);
            assert(b.subrange(p - position, p + len - position) =~= data@.subrange(p as int, p + len));
        }
        let value = match dt {
            DataType::Utf8 => EncodedValueRef::Utf8(bytes),
            DataType::Binary => EncodedValueRef::Binary(bytes),
            DataType::Decimal128(_, _) => EncodedValueRef::DecimalLarge(bytes),
            _ => {
                return Err(Error::UnsupportedEncodedType { data_type: dt.clone() });
            },
        };
        return Ok((value, p + len - position));
    }
    if position > data.len() || data.len() - position < width as usize {
        return Err(Error::TruncatedColumnData);
    }
    let ghost b = data@.subrange(position as int, position + width);
    let value = match dt {
        DataType::Boolean => EncodedValueRef::Boolean(data[position] != 0),
        DataType::Int8 => EncodedValueRef::Int8(data[position] as i8),
        DataType::Int16 => EncodedValueRef::Int16(read_i16(data, position)),
        DataType::Int32 => EncodedValueRef::Int32(read_i32(data, position)),
        DataType::Date32 => EncodedValueRef::Date32(read_i32(data, position)),
        DataType::Time32 => EncodedValueRef::Time32(read_i32(data, position)),
        DataType::Float32 => EncodedValueRef::Float32(read_u32(data, position)),
        DataType::Int64 => EncodedValueRef::Int64(read_i64(data, position)),
        DataType::Float64 => EncodedValueRef::Float64(read_u64(data, position)),
        DataType::Decimal128(_, _) => EncodedValueRef::DecimalCompact(read_i64(data, position)),
        DataType::Timestamp(TimeUnit::Millisecond, _) => EncodedValueRef::TimestampMillis(read_i64(data, position)),
        DataType::Timestamp(TimeUnit::Microsecond, _) => EncodedValueRef::TimestampMicros(read_i64(data, position)),
        _ => {
            assert(b.subrange(0, 8) =~= data@.subrange(position as int, position + 8));
            assert(b.subrange(8, 12) =~= data@.subrange(position + 8, position + 12));
            EncodedValueRef::TimestampNanos {
                millis: read_i64(data, position),
                nanos_of_milli: read_i32(data, position + 8),
            }
        },
    };
    match validate_encoded_value(dt, value) {
        Ok(value) => Ok((value, width as usize)),
        Err(e) => Err(e),
    }
}

/// The value at `pos` and the number of its bytes, or what is wrong with it.
pub open spec fn encoded_value_at(dt: DataType, data: Seq<u8>, pos: int) -> Result<(ValueView, int), Error> {
    match value_size(dt, data, pos, Error::TruncatedColumnData) {
        Err(e) => Err(e),
        Ok(size) => if dt is ListOf || dt is MapOf {
            Err(Error::UnsupportedEncodedType { data_type: dt })
        } else {
            match checked_value(dt, decoded_value(dt, data.subrange(pos, pos + size))) {
                Err(e) => Err(e),
                Ok(v) => Ok((v, size)),
            }
        },
    }
}

// ---------------------------------------------------------------- how values are stored

/// What a number with its sign is as a number without one, in so many bytes.
pub open spec fn unsigned_of(x: int, bytes: nat) -> int {
    if x < 0 {
        x + pow256(bytes)
    } else {
        x
    }
}

proof fn lemma_unsigned_casts(a: i8, b: i16, c: i32, d: i64)
    ensures
        (a as u8) as int == unsigned_of(a as int, 1),
        (b as u16) as int == unsigned_of(b as int, 2),
        (c as u32) as int == unsigned_of(c as int, 4),
        (d as u64) as int == unsigned_of(d as int, 8),
{
    lemma_pow256();
    assert(a < 0 ==> (a as u8) == a + 0x100) by (bit_vector);
    assert(a >= 0 ==> (a as u8) == a) by (bit_vector);
    assert(b < 0 ==> (b as u16) == b + 0x1_0000) by (bit_vector);
    assert(b >= 0 ==> (b as u16) == b) by (bit_vector);
    assert(c < 0 ==> (c as u32) == c + 0x1_0000_0000) by (bit_vector);
    assert(c >= 0 ==> (c as u32) == c) by (bit_vector);
    assert(d < 0 ==> (d as u64) == d + 0x1_0000_0000_0000_0000) by (bit_vector);
    assert(d >= 0 ==> (d as u64) == d) by (bit_vector);
}

/// Numbers are stored as two's complements of their width, most significant byte first; texts and bytes
/// behind their length; and a flag as a byte that is one or zero.
pub proof fn values_are_stored_by_their_width(v: ValueView)
    ensures
        ({
            let b = encoded_value(v);
            match v {
                ValueView::Null => b.len() == 0,
                ValueView::Boolean(x) => b.len() == 1 && (x ==> b[0] == 1) && (!x ==> b[0] == 0),
                ValueView::TinyInt(x) => b.len() == 1 && be_value(b) == unsigned_of(x as int, 1),
                ValueView::SmallInt(x) => b.len() == 2 && be_value(b) == unsigned_of(x as int, 2),
                ValueView::Integer(x) => b.len() == 4 && be_value(b) == unsigned_of(x as int, 4),
                ValueView::Date(x) => b.len() == 4 && be_value(b) == unsigned_of(x as int, 4),
                ValueView::Time(x) => b.len() == 4 && be_value(b) == unsigned_of(x as int, 4),
                ValueView::BigInt(x) => b.len() == 8 && be_value(b) == unsigned_of(x as int, 8),
                ValueView::DecimalCompact(x) => b.len() == 8 && be_value(b) == unsigned_of(x as int, 8),
                ValueView::TimestampMillis(x) => b.len() == 8 && be_value(b) == unsigned_of(x as int, 8),
                ValueView::TimestampMicros(x) => b.len() == 8 && be_value(b) == unsigned_of(x as int, 8),
                ValueView::Float(x) => b.len() == 4 && be_value(b) == x,
                ValueView::Double(x) => b.len() == 8 && be_value(b) == x,
                ValueView::TimestampNanos { millis, nanos_of_milli } => b.len() == 12 && be_value(b.take(8)) == unsigned_of(millis as int, 8)
                    && be_value(b.skip(8)) == unsigned_of(nanos_of_milli as int, 4),
                ValueView::String(x) => b == varint_bytes(x.len()) + x,
                ValueView::Bytes(x) => b == varint_bytes(x.len()) + x,
                ValueView::DecimalLarge(x) => b == varint_bytes(x.len()) + x,
            }
        }),
{
    lemma_pow256();
    let b = encoded_value(v);
    match v {
        ValueView::TinyInt(x) => {
            lemma_unsigned_casts(x, 0, 0, 0);
            assert(b.drop_last() =~= Seq::<u8>::empty());
            assert(be_value(b.drop_last()) == 0);
        },
        ValueView::SmallInt(x) => {
            lemma_unsigned_casts(0, x, 0, 0);
            lemma_be_value_of_bytes((x as u16) as nat, 2);
        },
        ValueView::Integer(x) => {
            lemma_unsigned_casts(0, 0, x, 0);
            lemma_be_value_of_bytes((x as u32) as nat, 4);
        },
        ValueView::Date(x) => {
            lemma_unsigned_casts(0, 0, x, 0);
            lemma_be_value_of_bytes((x as u32) as nat, 4);
        },
        ValueView::Time(x) => {
            lemma_unsigned_casts(0, 0, x, 0);
            lemma_be_value_of_bytes((x as u32) as nat, 4);
        },
        ValueView::BigInt(x) => {
            lemma_unsigned_casts(0, 0, 0, x);
            lemma_be_value_of_bytes((x as u64) as nat, 8);
        },
        ValueView::DecimalCompact(x) => {
            lemma_unsigned_casts(0, 0, 0, x);
            lemma_be_value_of_bytes((x as u64) as nat, 8);
        },
        ValueView::TimestampMillis(x) => {
            lemma_unsigned_casts(0, 0, 0, x);
            lemma_be_value_of_bytes((x as u64) as nat, 8);
        },
        ValueView::TimestampMicros(x) => {
            lemma_unsigned_casts(0, 0, 0, x);
            lemma_be_value_of_bytes((x as u64) as nat, 8);
        },
        ValueView::Float(x) => {
            lemma_be_value_of_bytes(x as nat, 4);
        },
        ValueView::Double(x) => {
            lemma_be_value_of_bytes(x as nat, 8);
        },
        ValueView::TimestampNanos { millis, nanos_of_milli } => {
            lemma_unsigned_casts(0, 0, nanos_of_milli, millis);
            lemma_be_value_of_bytes((millis as u64) as nat, 8);
            lemma_be_value_of_bytes((nanos_of_milli as u32) as nat, 4);
            assert(b.take(8) =~= be_bytes((millis as u64) as nat, 8));
            assert(b.skip(8) =~= be_bytes((nanos_of_milli as u32) as nat, 4));
        },
        _ => {},
    }
}

/// A column of values of one width has that many bytes for each value. The others are texts, bytes and
/// large decimals.
pub proof fn widths_are_those_of_the_values(dt: DataType, v: ValueView)
    requires
        value_fits(dt, v),
    ensures
        width_of(dt) > 0 ==> encoded_value(v).len() == width_of(dt),
        width_of(dt) <= 0 <==> v is String || v is Bytes || v is DecimalLarge,
{
    values_are_stored_by_their_width(v);
}

} // verus!
