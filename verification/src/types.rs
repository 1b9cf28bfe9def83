//! Column types and the values of timestamps.
use vstd::prelude::*;
use crate::error::Error;

verus! {

#[derive(Clone, Copy, Debug, PartialEq, Eq, Structural)]
pub enum TimeUnit {
    Millisecond,
    Microsecond,
    Nanosecond,
}

/// How a column below another is declared.
#[derive(Debug, PartialEq, Eq)]
pub struct FieldLabel {
    pub name: String,
    pub nullable: bool,
    /// What else is told of it, as one text.
    pub metadata: String,
}

/// How the entries of a map, their keys and their values are declared.
#[derive(Debug, PartialEq, Eq)]
pub struct MapLabel {
    pub entries: FieldLabel,
    pub key: FieldLabel,
    pub value: FieldLabel,
    /// The keys of each map are said to be sorted.
    pub sorted: bool,
}

/// The type of a column.
#[derive(Debug, PartialEq, Eq)]
pub enum DataType {
    Boolean,
    Int8,
    Int16,
    Int32,
    Int64,
    Float32,
    Float64,
    Date32,
    Time32,
    Utf8,
    Binary,
    /// Precision and scale.
    Decimal128(u8, i8),
    /// The unit, and the time zone if there is one.
    Timestamp(TimeUnit, Option<String>),
    /// A struct of milliseconds and of nanoseconds within the millisecond.
    LegacyTimestampNanos(FieldLabel, FieldLabel),
    ListOf(Box<DataType>, FieldLabel),
    /// Keys and values.
    MapOf(Box<DataType>, Box<DataType>, MapLabel),
}

/// The labels are the same.
pub open spec fn same_label(a: FieldLabel, b: FieldLabel) -> bool {
    a.name@ == b.name@ && a.nullable == b.nullable && a.metadata@ == b.metadata@
}

/// The time zones are the same.
pub open spec fn same_zone(a: Option<String>, b: Option<String>) -> bool {
    match (a, b) {
        (Some(x), Some(y)) => x@ == y@,
        (None, None) => true,
        _ => false,
    }
}

/// The types are the same, with all that they say.
pub open spec fn same_type(a: DataType, b: DataType) -> bool
    decreases a,
{
    match (a, b) {
        (DataType::Timestamp(x, z), DataType::Timestamp(y, w)) => x == y && same_zone(z, w),
        (DataType::LegacyTimestampNanos(x, y), DataType::LegacyTimestampNanos(z, w)) => same_label(x, z) && same_label(y, w),
        (DataType::ListOf(x, l), DataType::ListOf(y, m)) => same_type(*x, *y) && same_label(l, m),
        (DataType::MapOf(k, v, l), DataType::MapOf(m, w, n)) => same_type(*k, *m) && same_type(*v, *w) && same_label(l.entries, n.entries)
            && same_label(l.key, n.key) && same_label(l.value, n.value) && l.sorted == n.sorted,
        _ => a == b,
    }
}

impl FieldLabel {
    fn duplicate(&self) -> (copy: FieldLabel)
        ensures
            copy == *self,
    {
        FieldLabel { name: self.name.clone(), nullable: self.nullable, metadata: self.metadata.clone() }
    }

    fn is_same(&self, other: &FieldLabel) -> (same: bool)
        ensures
            same == same_label(*self, *other),
    {
        self.name == other.name && self.nullable == other.nullable && self.metadata == other.metadata
    }
}

impl MapLabel {
    fn duplicate(&self) -> (copy: MapLabel)
        ensures
            copy == *self,
    {
        MapLabel {
            entries: self.entries.duplicate(),
            key: self.key.duplicate(),
            value: self.value.duplicate(),
            sorted: self.sorted,
        }
    }
}

fn zone_copy(zone: &Option<String>) -> (copy: Option<String>)
    ensures
        copy == *zone,
{
    match zone {
        Some(name) => Some(name.clone()),
        None => None,
    }
}

impl DataType {
    /// A copy of the type.
    pub fn duplicate(&self) -> (copy: DataType)
        ensures
            copy == *self,
        decreases self,
    {
        match self {
            DataType::Boolean => DataType::Boolean,
            DataType::Int8 => DataType::Int8,
            DataType::Int16 => DataType::Int16,
            DataType::Int32 => DataType::Int32,
            DataType::Int64 => DataType::Int64,
            DataType::Float32 => DataType::Float32,
            DataType::Float64 => DataType::Float64,
            DataType::Date32 => DataType::Date32,
            DataType::Time32 => DataType::Time32,
            DataType::Utf8 => DataType::Utf8,
            DataType::Binary => DataType::Binary,
            DataType::Decimal128(precision, scale) => DataType::Decimal128(*precision, *scale),
            DataType::Timestamp(unit, zone) => DataType::Timestamp(*unit, zone_copy(zone)),
            DataType::LegacyTimestampNanos(millis, nanos) => DataType::LegacyTimestampNanos(millis.duplicate(), nanos.duplicate()),
            DataType::ListOf(element, label) => DataType::ListOf(Box::new(element.duplicate()), label.duplicate()),
            DataType::MapOf(key, value, label) => DataType::MapOf(
                Box::new(key.duplicate()),
                Box::new(value.duplicate()),
                label.duplicate(),
            ),
        }
    }
}

impl DataType {
    /// Whether two types are the same, time zones and names of columns below them among the rest.
    pub fn is_same(&self, other: &DataType) -> (same: bool)
        ensures
            same == same_type(*self, *other),
        decreases self,
    {
        match (self, other) {
            (DataType::Boolean, DataType::Boolean) => true,
            (DataType::Int8, DataType::Int8) => true,
            (DataType::Int16, DataType::Int16) => true,
            (DataType::Int32, DataType::Int32) => true,
            (DataType::Int64, DataType::Int64) => true,
            (DataType::Float32, DataType::Float32) => true,
            (DataType::Float64, DataType::Float64) => true,
            (DataType::Date32, DataType::Date32) => true,
            (DataType::Time32, DataType::Time32) => true,
            (DataType::Utf8, DataType::Utf8) => true,
            (DataType::Binary, DataType::Binary) => true,
            (DataType::Decimal128(p, s), DataType::Decimal128(q, t)) => *p == *q && *s == *t,
            (DataType::Timestamp(a, z), DataType::Timestamp(b, w)) => *a == *b && match (z, w) {
                (Some(x), Some(y)) => *x == *y,
                (None, None) => true,
                _ => false,
            },
            (DataType::LegacyTimestampNanos(a, b), DataType::LegacyTimestampNanos(c, d)) => a.is_same(c) && b.is_same(d),
            (DataType::ListOf(a, l), DataType::ListOf(b, m)) => a.is_same(b) && l.is_same(m),
            (DataType::MapOf(k, v, l), DataType::MapOf(m, w, n)) => k.is_same(m) && v.is_same(w) && l.entries.is_same(&n.entries)
                && l.key.is_same(&n.key) && l.value.is_same(&n.value) && l.sorted == n.sorted,
            _ => false,
        }
    }
}

impl Clone for DataType {
    fn clone(&self) -> (copy: Self)
        ensures
            copy == *self,
    {
        self.duplicate()
    }
}

pub open spec fn is_container_type(dt: DataType) -> bool {
    dt is ListOf || dt is MapOf
}

/// Lists and maps are stored as the lengths of their rows.
pub open spec fn physical_type(dt: DataType) -> DataType {
    if is_container_type(dt) {
        DataType::Int32
    } else {
        dt
    }
}

pub fn is_container(dt: &DataType) -> (result: bool)
    ensures
        result == is_container_type(*dt),
{
    match dt {
        DataType::ListOf(_, _) => true,
        DataType::MapOf(_, _, _) => true,
        _ => false,
    }
}

/// How many bytes each value takes; -1 where values differ in length.
pub open spec fn width_of(dt: DataType) -> int {
    match dt {
        DataType::Boolean => 1,
        DataType::Int8 => 1,
        DataType::Int16 => 2,
        DataType::Int32 => 4,
        DataType::Int64 => 8,
        DataType::Float32 => 4,
        DataType::Float64 => 8,
        DataType::Date32 => 4,
        DataType::Time32 => 4,
        DataType::Utf8 => -1,
        DataType::Binary => -1,
        DataType::Decimal128(precision, _) => if precision <= 18 {
            8
        } else {
            -1
        },
        DataType::Timestamp(TimeUnit::Nanosecond, _) => 12,
        DataType::Timestamp(_, _) => 8,
        DataType::LegacyTimestampNanos(_, _) => 12,
        DataType::ListOf(_, _) => -1,
        DataType::MapOf(_, _, _) => -1,
    }
}

pub fn fixed_width(dt: &DataType) -> (width: i32)
    ensures
        width == width_of(*dt),
{
    match dt {
        DataType::Boolean => 1,
        DataType::Int8 => 1,
        DataType::Int16 => 2,
        DataType::Int32 => 4,
        DataType::Int64 => 8,
        DataType::Float32 => 4,
        DataType::Float64 => 8,
        DataType::Date32 => 4,
        DataType::Time32 => 4,
        DataType::Utf8 => -1,
        DataType::Binary => -1,
        DataType::Decimal128(precision, _) => if *precision <= 18 {
            8
        } else {
            -1
        },
        DataType::Timestamp(TimeUnit::Nanosecond, _) => 12,
        DataType::Timestamp(_, _) => 8,
        DataType::LegacyTimestampNanos(_, _) => 12,
        DataType::ListOf(_, _) => -1,
        DataType::MapOf(_, _, _) => -1,
    }
}

pub open spec fn is_nanos_type(dt: DataType) -> bool {
    dt matches DataType::Timestamp(TimeUnit::Nanosecond, _) || dt is LegacyTimestampNanos
}

pub fn is_timestamp_nanos(dt: &DataType) -> (result: bool)
    ensures
        result == is_nanos_type(*dt),
{
    match dt {
        DataType::Timestamp(TimeUnit::Nanosecond, _) => true,
        DataType::LegacyTimestampNanos(_, _) => true,
        _ => false,
    }
}

pub const NANOS_PER_MILLI: i64 = 1_000_000;

/// The nanoseconds that a pair of milliseconds and nanoseconds stands for, where 64 bits hold them.
pub open spec fn pair_nanos(millis: i64, nanos_of_milli: i32) -> Result<i64, Error> {
    let total = millis * NANOS_PER_MILLI + nanos_of_milli;
    if nanos_of_milli < 0 || nanos_of_milli >= NANOS_PER_MILLI {
        Err(Error::NanosOutOfRange { nanos: nanos_of_milli })
    } else if total < i64::MIN || total > i64::MAX {
        Err(Error::TimestampOverflow)
    } else {
        Ok(total as i64)
    }
}

pub fn millis_nanos_to_ns(millis: i64, nanos_of_milli: i32) -> (result: Result<i64, Error>)
    ensures
        result == pair_nanos(millis, nanos_of_milli),
{
    if nanos_of_milli < 0 || nanos_of_milli as i64 >= NANOS_PER_MILLI {
        return Err(Error::NanosOutOfRange { nanos: nanos_of_milli });
    }
    let total: i128 = (millis as i128) * 1_000_000i128 + nanos_of_milli as i128;
    if total < i64::MIN as i128 || total > i64::MAX as i128 {
        return Err(Error::TimestampOverflow);
    }
    Ok(total as i64)
}

/// Splits nanoseconds into milliseconds, rounded down, and the nanoseconds that are left.
pub fn ns_to_millis_nanos(ns: i64) -> (parts: (i64, i32))
    ensures
        parts.0 == ns as int / NANOS_PER_MILLI as int,
        parts.1 == ns as int % NANOS_PER_MILLI as int,
{
    match ns.checked_div_euclid(NANOS_PER_MILLI) {
        Some(millis) => (millis, (ns as i128 - (millis as i128) * 1_000_000i128) as i32),
        None => (0, 0),
    }
}

/// Splitting nanoseconds and joining the parts gives them back.
pub proof fn joined_nanos_are_the_split_ones(ns: i64)
    ensures
        pair_nanos(
            (ns as int / NANOS_PER_MILLI as int) as i64,
            (ns as int % NANOS_PER_MILLI as int) as i32,
        ) == Ok::<i64, Error>(ns),
{
}

} // verus!
