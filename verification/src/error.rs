//! What can go wrong, and how it is told.
use vstd::prelude::*;
use vstd::string::StringExecFns;
use crate::bucket_writer::ChildColumnRole;
use crate::types::{DataType, FieldLabel, MapLabel, TimeUnit};

verus! {

/// The broad kind of an error.
#[derive(Clone, Copy, Debug, PartialEq, Eq, Structural)]
pub enum ErrorKind {
    InvalidData,
    InvalidInput,
    UnexpectedEof,
    Unsupported,
    WriteZero,
    BrokenPipe,
    Other,
}

#[derive(Debug, PartialEq, Eq)]
pub enum Error {
    TruncatedVarint,
    OversizedVarint,
    NanosOutOfRange { nanos: i32 },
    TimestampOverflow,
    TruncatedValueLength,
    TruncatedValue,
    TruncatedColumnData,
    UnsupportedEncodedType { data_type: DataType },
    LegacyNullChild,
    InvalidLegacyNanos { nanos: i32 },
    LegacyTimestampOverflow,
    MissingChildColumn { parent: usize, length: usize, role: ChildColumnRole },
    ExpectedListArray,
    ExpectedMapArray,
    ArrayTypeMismatch { data_type: DataType },
    TooManyRows,
    DecimalTooLong,
    CorruptDictIndex,
    DictIndexOverflow,
    TruncatedDictIndexes,
    UnsupportedEncoding { code: u8 },
    RangeOutOfBounds,
    BucketTruncated,
    PageTruncated { part: PagePart },
    UnsupportedPageEncoding { code: u8 },
    PageStartOutOfBounds,
    ColumnOutOfRange { column: usize, num_columns: usize },
    CorruptLengths,
    DecompressedSizeOverCap { size: usize, cap: usize, block: usize },
    DecompressionFailed,
    CompressionFailed,
    BlockTooLarge { field: SizeField, size: usize },
    SizeOverU32 { field: SizeField, size: usize },
    FileTooSmall,
    BadMagic,
    UnsupportedVersion { version: u8 },
    CorruptFooter,
    UnsupportedCompression { code: u8 },
    BucketCountMismatch,
    NoBuckets,
    NonEmptyCountTooLarge,
    CorruptRowGroupIndex,
    DuplicateBucket,
    InvalidBucketLayout,
    BucketOffsetOverflow,
    BucketPastSchema,
    TrailingIndexBytes,
    ColumnNotFound { name: String },
    StatsColumnNotFound { name: String },
    StatsTypeUnsupported { name: String, data_type: DataType },
    RowGroupOutOfRange,
    RowGroupIndexOutOfRange { index: usize, num_row_groups: usize },
    ProjectedColumnOutOfRange { column: usize, num_columns: usize },
    UnsupportedBucketCompression,
    PagedBucketNotZstd,
    DirectoryTooLarge { bucket: usize, dir_size: usize, total_size: usize },
    SlotSumMismatch { bucket: usize, total: usize },
    ChildHeaderTooShort,
    ChildHeaderTruncated,
    DirectoryTruncated,
    DirectoryMismatch { bucket: usize, dir_size: usize, slot_total: u64, total_size: usize },
    PageContentTooShort,
    ConstValueTruncated,
    NestedEncodedColumn { name: String },
    BucketNotLoaded { bucket: usize },
    ColumnMissingFromPagedBucket { column: usize, bucket: usize },
    WriterAborted,
    WriterClosed,
    UnsupportedOutputCompression { code: u8 },
    ColumnCountMismatch { expected: usize, actual: usize },
    FieldNameMismatch { column: usize, expected_name: String, actual_name: String },
    ColumnTypeMismatch { name: String, expected_type: DataType, actual_type: DataType },
    UnexpectedNulls { name: String, nulls: usize },
    TooManyColumns,
    OutputBudgetExceeded,
    RowBudgetExceeded { rows: usize },
    TooManyJavaDoubles,
    JavaDoubleCountMismatch { returned: usize, requested: usize },
    JavaDoubleNotUtf8 { valid_up_to: usize, error_len: Option<usize> },
    JavaDoubleInvalid { rendered: String },
    JavaDoubleMismatch { rendered: String, bits: u64 },
    MissingJavaDouble { bits: u64 },
    MissingDoubleText { bits: u64 },
    NonFiniteDouble,
    EncodedTypeMismatch { data_type: DataType },
    ColumnRowCountMismatch { rows: usize, expected: usize },
    DecimalOverPrecision { precision: u8, scale: i8 },
    InvalidDecimalWidth { width: usize },
    InvalidUtf8Value { valid_up_to: usize, error_len: Option<usize> },
    MissingConst,
    UnsupportedColumnEncoding { code: u8 },
    BlockCacheSize,
    NullBitmapTruncated,
    InvalidDoubleText { rendering: String },
    MissingExponent,
    InvalidExponent,
    ExponentOverflow,
    ZstdStream { name: String },
    NoProgress { operation: Operation },
    Io { kind: ErrorKind, message: String },
}

/// A size that is told by a number of 32 bits.
#[derive(Clone, Copy, Debug, PartialEq, Eq, Structural)]
pub enum SizeField {
    BucketUncompressedSize,
    PageUncompressedSize,
    PagedSlotSize,
    SchemaUncompressedSize,
    RowGroupRows,
    NonEmptyBuckets,
    BucketIndex,
    BucketCompressedSize,
    BucketBulkDecompressSize,
    NumBuckets,
    NumRowGroups,
}

/// A part of a column page.
#[derive(Clone, Copy, Debug, PartialEq, Eq, Structural)]
pub enum PagePart {
    Value,
    NullBitmap,
    DictIndexes,
    FixedValues,
    VariableValues,
}

/// What a compressor was doing.
#[derive(Clone, Copy, Debug, PartialEq, Eq, Structural)]
pub enum Operation {
    Compression,
    Flush,
    Finish,
}

// ---------------------------------------------------------------- kinds

impl Error {
    pub open spec fn spec_kind(self) -> ErrorKind {
        match self {
            Error::LegacyNullChild
            | Error::InvalidLegacyNanos { .. }
            | Error::LegacyTimestampOverflow
            | Error::ExpectedListArray
            | Error::ExpectedMapArray
            | Error::ArrayTypeMismatch { .. }
            | Error::TooManyRows
            | Error::RangeOutOfBounds
            | Error::ColumnOutOfRange { .. }
            | Error::BlockTooLarge { .. }
            | Error::SizeOverU32 { .. }
            | Error::ColumnNotFound { .. }
            | Error::StatsColumnNotFound { .. }
            | Error::StatsTypeUnsupported { .. }
            | Error::RowGroupOutOfRange
            | Error::RowGroupIndexOutOfRange { .. }
            | Error::ProjectedColumnOutOfRange { .. }
            | Error::WriterAborted
            | Error::WriterClosed
            | Error::UnsupportedOutputCompression { .. }
            | Error::ColumnCountMismatch { .. }
            | Error::FieldNameMismatch { .. }
            | Error::ColumnTypeMismatch { .. }
            | Error::UnexpectedNulls { .. }
            | Error::TooManyColumns
            | Error::BlockCacheSize => ErrorKind::InvalidInput,
            Error::NestedEncodedColumn { .. }
            | Error::OutputBudgetExceeded
            | Error::RowBudgetExceeded { .. }
            | Error::TooManyJavaDoubles => ErrorKind::Unsupported,
            Error::NoProgress { .. } => ErrorKind::WriteZero,
            Error::CompressionFailed
            | Error::ZstdStream { .. } => ErrorKind::Other,
            Error::Io { kind, .. } => kind,
            _ => ErrorKind::InvalidData,
        }
    }

    pub fn kind(&self) -> (kind: ErrorKind)
        ensures
            kind == self.spec_kind(),
    {
        match self {
            Error::LegacyNullChild
            | Error::InvalidLegacyNanos { .. }
            | Error::LegacyTimestampOverflow
            | Error::ExpectedListArray
            | Error::ExpectedMapArray
            | Error::ArrayTypeMismatch { .. }
            | Error::TooManyRows
            | Error::RangeOutOfBounds
            | Error::ColumnOutOfRange { .. }
            | Error::BlockTooLarge { .. }
            | Error::SizeOverU32 { .. }
            | Error::ColumnNotFound { .. }
            | Error::StatsColumnNotFound { .. }
            | Error::StatsTypeUnsupported { .. }
            | Error::RowGroupOutOfRange
            | Error::RowGroupIndexOutOfRange { .. }
            | Error::ProjectedColumnOutOfRange { .. }
            | Error::WriterAborted
            | Error::WriterClosed
            | Error::UnsupportedOutputCompression { .. }
            | Error::ColumnCountMismatch { .. }
            | Error::FieldNameMismatch { .. }
            | Error::ColumnTypeMismatch { .. }
            | Error::UnexpectedNulls { .. }
            | Error::TooManyColumns
            | Error::BlockCacheSize => ErrorKind::InvalidInput,
            Error::NestedEncodedColumn { .. }
            | Error::OutputBudgetExceeded
            | Error::RowBudgetExceeded { .. }
            | Error::TooManyJavaDoubles => ErrorKind::Unsupported,
            Error::NoProgress { .. } => ErrorKind::WriteZero,
            Error::CompressionFailed
            | Error::ZstdStream { .. } => ErrorKind::Other,
            Error::Io { kind, .. } => *kind,
            _ => ErrorKind::InvalidData,
        }
    }
}

// ---------------------------------------------------------------- texts

/// A digit.
pub open spec fn digit_char(d: int) -> char {
    (if d < 10 {
        48 + d
    } else {
        87 + d
    }) as char
}

/// A number in decimal digits.
pub open spec fn number_chars(v: nat) -> Seq<char>
    decreases v,
{
    if v < 10 {
        seq![digit_char(v as int)]
    } else {
        number_chars(v / 10).push(digit_char(v as int % 10))
    }
}

/// The last `n` digits of a number to the base of 16.
pub open spec fn hex_chars(v: nat, n: nat) -> Seq<char>
    decreases n,
{
    if n == 0 {
        Seq::empty()
    } else {
        hex_chars(v / 16, (n - 1) as nat).push(digit_char(v as int % 16))
    }
}

/// A number with its sign.
pub open spec fn signed_chars(v: int) -> Seq<char> {
    if v < 0 {
        "-"@ + number_chars((-v) as nat)
    } else {
        number_chars(v as nat)
    }
}

fn digit_of(d: u64) -> (c: &'static str)
    requires
        d < 16,
    ensures
        c@ == seq![digit_char(d as int)],
{
    proof {
        reveal_strlit("0");
        reveal_strlit("1");
        reveal_strlit("2");
        reveal_strlit("3");
        reveal_strlit("4");
        reveal_strlit("5");
        reveal_strlit("6");
        reveal_strlit("7");
        reveal_strlit("8");
        reveal_strlit("9");
        reveal_strlit("a");
        reveal_strlit("b");
        reveal_strlit("c");
        reveal_strlit("d");
        reveal_strlit("e");
        reveal_strlit("f");
    }
    match d {
        0 => "0",
        1 => "1",
        2 => "2",
        3 => "3",
        4 => "4",
        5 => "5",
        6 => "6",
        7 => "7",
        8 => "8",
        9 => "9",
        10 => "a",
        11 => "b",
        12 => "c",
        13 => "d",
        14 => "e",
        _ => "f",
    }
}

fn push_number(text: &mut String, v: u64)
    ensures
        final(text)@ == old(text)@ + number_chars(v as nat),
    decreases v,
{
    if v >= 10 {
        push_number(text, v / 10);
    }
    let ghost before = text@;
    text.append(digit_of(v % 10));
    proof {
        if v < 10 {
            assert(text@ =~= old(text)@ + number_chars(v as nat));
        } else {
            assert(text@ =~= old(text)@ + number_chars((v / 10) as nat).push(digit_char(v as int % 10)));
        }
    }
}

fn push_hex(text: &mut String, v: u64, n: u64)
    ensures
        final(text)@ == old(text)@ + hex_chars(v as nat, n as nat),
    decreases n,
{
    if n > 0 {
        push_hex(text, v / 16, n - 1);
        text.append(digit_of(v % 16));
        assert(text@ =~= old(text)@ + hex_chars((v / 16) as nat, (n - 1) as nat).push(digit_char(v as int % 16)));
    } else {
        assert(text@ =~= old(text)@ + hex_chars(v as nat, 0));
    }
}

fn push_signed(text: &mut String, v: i32)
    ensures
        final(text)@ == old(text)@ + signed_chars(v as int),
{
    let wide: i64 = v as i64;
    if wide < 0 {
        text.append("-");
        push_number(text, (-wide) as u64);
        assert(text@ =~= old(text)@ + ("-"@ + number_chars((-wide) as nat)));
    } else {
        push_number(text, wide as u64);
    }
}

/// The unit of a timestamp.
pub open spec fn unit_text(unit: TimeUnit) -> Seq<char> {
    match unit {
        TimeUnit::Millisecond => "Millisecond"@,
        TimeUnit::Microsecond => "Microsecond"@,
        TimeUnit::Nanosecond => "Nanosecond"@,
    }
}

/// The front of a column below another: its name, unless it is the usual one of an item.
pub open spec fn label_front(label: FieldLabel) -> Seq<char> {
    if label.name@ == "item"@ {
        "Field { data_type: "@
    } else {
        "Field { name: \""@ + label.name@ + "\", data_type: "@
    }
}

/// The end of a column below another: whether it may be null, and what else is told of it.
pub open spec fn label_end(label: FieldLabel) -> Seq<char> {
    (if label.nullable {
        ", nullable: true"@
    } else {
        ""@
    }) + (if label.metadata@ == ""@ {
        " }"@
    } else {
        ", metadata: "@ + label.metadata@ + " }"@
    })
}

/// A column below another of the given type.
pub open spec fn field_text(label: FieldLabel, inner: Seq<char>) -> Seq<char> {
    label_front(label) + inner + label_end(label)
}

/// Two columns below another.
pub open spec fn pair_text(first: Seq<char>, second: Seq<char>) -> Seq<char> {
    "Struct(["@ + first + ", "@ + second + "])"@
}

/// What stands in front of the key of a map.
pub open spec fn map_front(label: MapLabel) -> Seq<char> {
    "Map("@ + label_front(label.entries) + "Struct(["@
}

/// What stands behind the value of a map.
pub open spec fn map_end(label: MapLabel) -> Seq<char> {
    "])"@ + label_end(label.entries) + if label.sorted {
        ", true)"@
    } else {
        ", false)"@
    }
}

pub open spec fn zone_text(zone: Option<String>) -> Seq<char> {
    match zone {
        Some(name) => "Some(\""@ + name@ + "\")"@,
        None => "None"@,
    }
}

/// A column type.
pub open spec fn type_text(dt: DataType) -> Seq<char>
    decreases dt,
{
    match dt {
        DataType::Boolean => "Boolean"@,
        DataType::Int8 => "Int8"@,
        DataType::Int16 => "Int16"@,
        DataType::Int32 => "Int32"@,
        DataType::Int64 => "Int64"@,
        DataType::Float32 => "Float32"@,
        DataType::Float64 => "Float64"@,
        DataType::Date32 => "Date32"@,
        DataType::Time32 => "Time32(Millisecond)"@,
        DataType::Utf8 => "Utf8"@,
        DataType::Binary => "Binary"@,
        DataType::Decimal128(precision, scale) => "Decimal128("@ + number_chars(precision as nat) + ", "@ + signed_chars(scale as int) + ")"@,
        DataType::Timestamp(unit, zone) => "Timestamp("@ + unit_text(unit) + ", "@ + zone_text(zone) + ")"@,
        DataType::LegacyTimestampNanos(millis, nanos) => pair_text(field_text(millis, "Int64"@), field_text(nanos, "Int32"@)),
        DataType::ListOf(element, label) => "List("@ + field_text(label, type_text(*element)) + ")"@,
        DataType::MapOf(key, value, label) => map_front(label) + field_text(label.key, type_text(*key)) + ", "@ + field_text(
            label.value,
            type_text(*value),
        ) + map_end(label),
    }
}

fn unit_name(unit: TimeUnit) -> (name: &'static str)
    ensures
        name@ == unit_text(unit),
{
    match unit {
        TimeUnit::Millisecond => "Millisecond",
        TimeUnit::Microsecond => "Microsecond",
        TimeUnit::Nanosecond => "Nanosecond",
    }
}

fn push_label_front(text: &mut String, label: &FieldLabel)
    ensures
        final(text)@ == old(text)@ + label_front(*label),
{
    if label.name == "item".to_owned() {
        text.append("Field { data_type: ");
    } else {
        text.append("Field { name: \"");
        text.append(label.name.as_str());
        text.append("\", data_type: ");
    }
    assert(text@ =~= old(text)@ + label_front(*label));
}

fn push_label_end(text: &mut String, label: &FieldLabel)
    ensures
        final(text)@ == old(text)@ + label_end(*label),
{
    proof {
        reveal_strlit("");
    }
    if label.nullable {
        text.append(", nullable: true");
    }
    if label.metadata == "".to_owned() {
        text.append(" }");
    } else {
        text.append(", metadata: ");
        text.append(label.metadata.as_str());
        text.append(" }");
    }
    assert(text@ =~= old(text)@ + label_end(*label));
}

fn push_zone(text: &mut String, zone: &Option<String>)
    ensures
        final(text)@ == old(text)@ + zone_text(*zone),
{
    match zone {
        Some(name) => {
            text.append("Some(\"");
            text.append(name.as_str());
            text.append("\")");
        },
        None => {
            text.append("None");
        },
    }
    assert(text@ =~= old(text)@ + zone_text(*zone));
}

fn push_decimal(text: &mut String, precision: u8, scale: i8)
    ensures
        final(text)@ == old(text)@ + type_text(DataType::Decimal128(precision, scale)),
{
    text.append("Decimal128(");
    push_number(text, precision as u64);
    text.append(", ");
    push_signed(text, scale as i32);
    text.append(")");
    assert(text@ =~= old(text)@ + type_text(DataType::Decimal128(precision, scale)));
}

fn push_timestamp(text: &mut String, unit: TimeUnit, zone: &Option<String>)
    ensures
        final(text)@ == old(text)@ + type_text(DataType::Timestamp(unit, *zone)),
{
    text.append("Timestamp(");
    text.append(unit_name(unit));
    text.append(", ");
    push_zone(text, zone);
    text.append(")");
    assert(text@ =~= old(text)@ + type_text(DataType::Timestamp(unit, *zone)));
}

fn push_named(text: &mut String, label: &FieldLabel, inner: &'static str)
    ensures
        final(text)@ == old(text)@ + field_text(*label, inner@),
{
    push_label_front(text, label);
    text.append(inner);
    push_label_end(text, label);
    assert(text@ =~= old(text)@ + field_text(*label, inner@));
}

fn push_legacy(text: &mut String, millis: &FieldLabel, nanos: &FieldLabel)
    ensures
        final(text)@ == old(text)@ + type_text(DataType::LegacyTimestampNanos(*millis, *nanos)),
{
    text.append("Struct([");
    push_named(text, millis, "Int64");
    text.append(", ");
    push_named(text, nanos, "Int32");
    text.append("])");
    assert(text@ =~= old(text)@ + pair_text(field_text(*millis, "Int64"@), field_text(*nanos, "Int32"@)));
}

fn push_map_front(text: &mut String, label: &MapLabel)
    ensures
        final(text)@ == old(text)@ + map_front(*label),
{
    text.append("Map(");
    push_label_front(text, &label.entries);
    text.append("Struct([");
    assert(text@ =~= old(text)@ + map_front(*label));
}

fn push_map_end(text: &mut String, label: &MapLabel)
    ensures
        final(text)@ == old(text)@ + map_end(*label),
{
    text.append("])");
    push_label_end(text, &label.entries);
    if label.sorted {
        text.append(", true)");
    } else {
        text.append(", false)");
    }
    assert(text@ =~= old(text)@ + map_end(*label));
}

proof fn lemma_joined(start: Seq<char>, a: Seq<char>, b: Seq<char>, c: Seq<char>, d: Seq<char>, e: Seq<char>)
    ensures
        start + a + b + c + d + e == start + (a + b + c + d + e),
{
    assert(start + a + b + c + d + e =~= start + (a + b + c + d + e));
}

fn push_field(text: &mut String, label: &FieldLabel, dt: &DataType)
    ensures
        final(text)@ == old(text)@ + field_text(*label, type_text(*dt)),
    decreases dt, 1int,
{
    push_label_front(text, label);
    push_type(text, dt);
    push_label_end(text, label);
    assert(text@ =~= old(text)@ + field_text(*label, type_text(*dt)));
}

fn push_type(text: &mut String, dt: &DataType)
    ensures
        final(text)@ == old(text)@ + type_text(*dt),
    decreases dt, 0int,
{
    let ghost start = text@;
    match dt {
        DataType::Boolean => text.append("Boolean"),
        DataType::Int8 => text.append("Int8"),
        DataType::Int16 => text.append("Int16"),
        DataType::Int32 => text.append("Int32"),
        DataType::Int64 => text.append("Int64"),
        DataType::Float32 => text.append("Float32"),
        DataType::Float64 => text.append("Float64"),
        DataType::Date32 => text.append("Date32"),
        DataType::Time32 => text.append("Time32(Millisecond)"),
        DataType::Utf8 => text.append("Utf8"),
        DataType::Binary => text.append("Binary"),
        DataType::Decimal128(precision, scale) => push_decimal(text, *precision, *scale),
        DataType::Timestamp(unit, zone) => push_timestamp(text, *unit, zone),
        DataType::LegacyTimestampNanos(millis, nanos) => push_legacy(text, millis, nanos),
        DataType::ListOf(element, label) => {
            text.append("List(");
            push_field(text, label, element);
            text.append(")");
            assert(text@ =~= start + ("List("@ + field_text(*label, type_text(**element)) + ")"@));
        },
        DataType::MapOf(key, value, label) => {
            push_map_front(text, label);
            push_field(text, &label.key, key);
            text.append(", ");
            push_field(text, &label.value, value);
            push_map_end(text, label);
            proof {
                lemma_joined(
                    start,
                    map_front(*label),
                    field_text(label.key, type_text(**key)),
                    ", "@,
                    field_text(label.value, type_text(**value)),
                    map_end(*label),
                );
            }
        },
    }
}

/// Why bytes are no text: where they stop being one, and how many bytes are wrong there; none where
/// the bytes end too early.
pub open spec fn fault_text(valid_up_to: usize, error_len: Option<usize>) -> Seq<char> {
    match error_len {
        Some(len) => "invalid utf-8 sequence of "@ + number_chars(len as nat) + " bytes from index "@ + number_chars(valid_up_to as nat),
        None => "incomplete utf-8 byte sequence from index "@ + number_chars(valid_up_to as nat),
    }
}

/// Why a text is no number.
pub open spec fn parse_text(text: Seq<char>) -> Seq<char> {
    if text == ""@ {
        "cannot parse float from empty string"@
    } else {
        "invalid float literal"@
    }
}

fn push_fault(text: &mut String, valid_up_to: usize, error_len: Option<usize>)
    ensures
        final(text)@ == old(text)@ + fault_text(valid_up_to, error_len),
{
    match error_len {
        Some(len) => {
            text.append("invalid utf-8 sequence of ");
            push_number(text, len as u64);
            text.append(" bytes from index ");
            push_number(text, valid_up_to as u64);
        },
        None => {
            text.append("incomplete utf-8 byte sequence from index ");
            push_number(text, valid_up_to as u64);
        },
    }
    assert(text@ =~= old(text)@ + fault_text(valid_up_to, error_len));
}

fn parse_reason(text: &String) -> (reason: &'static str)
    ensures
        reason@ == parse_text(text@),
{
    if *text == "".to_owned() {
        "cannot parse float from empty string"
    } else {
        "invalid float literal"
    }
}

impl SizeField {
    pub open spec fn text(self) -> Seq<char> {
        match self {
            SizeField::BucketUncompressedSize => "bucket uncompressed size"@,
            SizeField::PageUncompressedSize => "page uncompressed size"@,
            SizeField::PagedSlotSize => "paged slot size"@,
            SizeField::SchemaUncompressedSize => "schema uncompressed size"@,
            SizeField::RowGroupRows => "row group num_rows"@,
            SizeField::NonEmptyBuckets => "non_empty bucket count"@,
            SizeField::BucketIndex => "bucket index"@,
            SizeField::BucketCompressedSize => "bucket compressed_size"@,
            SizeField::BucketBulkDecompressSize => "bucket bulk_decompress_size"@,
            SizeField::NumBuckets => "num_buckets"@,
            SizeField::NumRowGroups => "num_row_groups"@,
        }
    }

    pub fn name(&self) -> (name: &'static str)
        ensures
            name@ == self.text(),
    {
        match self {
            SizeField::BucketUncompressedSize => "bucket uncompressed size",
            SizeField::PageUncompressedSize => "page uncompressed size",
            SizeField::PagedSlotSize => "paged slot size",
            SizeField::SchemaUncompressedSize => "schema uncompressed size",
            SizeField::RowGroupRows => "row group num_rows",
            SizeField::NonEmptyBuckets => "non_empty bucket count",
            SizeField::BucketIndex => "bucket index",
            SizeField::BucketCompressedSize => "bucket compressed_size",
            SizeField::BucketBulkDecompressSize => "bucket bulk_decompress_size",
            SizeField::NumBuckets => "num_buckets",
            SizeField::NumRowGroups => "num_row_groups",
        }
    }
}

impl PagePart {
    pub open spec fn text(self) -> Seq<char> {
        match self {
            PagePart::Value => ""@,
            PagePart::NullBitmap => ": null bitmap"@,
            PagePart::DictIndexes => ": dict bit-packed data"@,
            PagePart::FixedValues => ": plain fixed-width data"@,
            PagePart::VariableValues => ": plain variable-width data"@,
        }
    }

    fn suffix(&self) -> (suffix: &'static str)
        ensures
            suffix@ == self.text(),
    {
        match self {
            PagePart::Value => "",
            PagePart::NullBitmap => ": null bitmap",
            PagePart::DictIndexes => ": dict bit-packed data",
            PagePart::FixedValues => ": plain fixed-width data",
            PagePart::VariableValues => ": plain variable-width data",
        }
    }
}

impl Operation {
    pub open spec fn text(self) -> Seq<char> {
        match self {
            Operation::Compression => "zstd compression"@,
            Operation::Flush => "zstd flush"@,
            Operation::Finish => "zstd finish"@,
        }
    }

    fn name(&self) -> (name: &'static str)
        ensures
            name@ == self.text(),
    {
        match self {
            Operation::Compression => "zstd compression",
            Operation::Flush => "zstd flush",
            Operation::Finish => "zstd finish",
        }
    }
}

impl ChildColumnRole {
    pub open spec fn text(self) -> Seq<char> {
        match self {
            ChildColumnRole::ListElement => "ListElement"@,
            ChildColumnRole::MapKey => "MapKey"@,
            ChildColumnRole::MapValue => "MapValue"@,
        }
    }

    fn name(&self) -> (name: &'static str)
        ensures
            name@ == self.text(),
    {
        match self {
            ChildColumnRole::ListElement => "ListElement",
            ChildColumnRole::MapKey => "MapKey",
            ChildColumnRole::MapValue => "MapValue",
        }
    }
}

impl Error {
    /// The message of an error.
    pub open spec fn text(self) -> Seq<char> {
        match self {
            Error::TruncatedVarint => "truncated varint"@,
            Error::OversizedVarint => "varint exceeds 32 bits"@,
            Error::NanosOutOfRange { nanos } => "timestamp nanos of millisecond out of range: "@ + signed_chars(nanos as int),
            Error::TimestampOverflow => "timestamp nanos overflow"@,
            Error::TruncatedValueLength => "truncated varint in variable-length value"@,
            Error::TruncatedValue => "buffer truncated in variable-length value"@,
            Error::TruncatedColumnData => "column data truncated"@,
            Error::UnsupportedEncodedType { data_type } => "unsupported encoded data type: "@ + type_text(data_type),
            Error::LegacyNullChild => "legacy timestamp nanos has null child for a non-null parent row"@,
            Error::InvalidLegacyNanos { nanos } => "timestamp nanos of millisecond out of range: "@ + signed_chars(nanos as int),
            Error::LegacyTimestampOverflow => "timestamp nanos overflow"@,
            Error::MissingChildColumn { parent, length, role } => "missing complex child column: parent="@ + number_chars(parent as nat) + ", length="@ + number_chars(length as nat) + ", role="@ + role.text(),
            Error::ExpectedListArray => "expected ListArray"@,
            Error::ExpectedMapArray => "expected MapArray"@,
            Error::ArrayTypeMismatch { data_type } => "array downcast failed for DataType: "@ + type_text(data_type),
            Error::TooManyRows => "too many rows"@,
            Error::DecimalTooLong => "decimal value is longer than 16 bytes"@,
            Error::CorruptDictIndex => "corrupt dict index"@,
            Error::DictIndexOverflow => "dict index offset overflow"@,
            Error::TruncatedDictIndexes => "truncated dict indexes"@,
            Error::UnsupportedEncoding { code } => "unsupported encoding "@ + number_chars(code as nat),
            Error::RangeOutOfBounds => "read range buffer bounds exceed backing data"@,
            Error::BucketTruncated => "bucket data truncated"@,
            Error::PageTruncated { part } => "column page truncated"@ + part.text(),
            Error::UnsupportedPageEncoding { code } => "column page: unsupported encoding "@ + number_chars(code as nat),
            Error::PageStartOutOfBounds => "column page data start out of bounds"@,
            Error::ColumnOutOfRange { column, num_columns } => "column index "@ + number_chars(column as nat) + " out of range (num_columns="@ + number_chars(num_columns as nat) + ")"@,
            Error::CorruptLengths => "corrupt lengths of nested rows"@,
            Error::DecompressedSizeOverCap { size, cap, block } => "declared uncompressed size "@ + number_chars(size as nat) + " exceeds cap "@ + number_chars(cap as nat) + " for "@ + number_chars(block as nat) + "-byte block"@,
            Error::DecompressionFailed => "zstd decompression failed"@,
            Error::CompressionFailed => "zstd compression failed"@,
            Error::BlockTooLarge { field, size } => field.text() + " ("@ + number_chars(size as nat) + ") exceeds max zstd decompressed block size (1073741824)"@,
            Error::SizeOverU32 { field, size } => field.text() + " ("@ + number_chars(size as nat) + ") exceeds u32::MAX"@,
            Error::FileTooSmall => "file too small"@,
            Error::BadMagic => "bad magic bytes"@,
            Error::UnsupportedVersion { version } => "unsupported version: "@ + number_chars(version as nat),
            Error::CorruptFooter => "corrupted footer offsets"@,
            Error::UnsupportedCompression { code } => "unsupported compression: "@ + number_chars(code as nat),
            Error::BucketCountMismatch => "footer num_buckets does not match schema"@,
            Error::NoBuckets => "num_buckets must be > 0"@,
            Error::NonEmptyCountTooLarge => "non_empty count exceeds num_buckets"@,
            Error::CorruptRowGroupIndex => "corrupted row group index"@,
            Error::DuplicateBucket => "duplicate bucket_id in row group index"@,
            Error::InvalidBucketLayout => "invalid bucket layout"@,
            Error::BucketOffsetOverflow => "bucket offset overflow"@,
            Error::BucketPastSchema => "bucket data extends past schema block"@,
            Error::TrailingIndexBytes => "trailing bytes in row group index"@,
            Error::ColumnNotFound { name } => "column '"@ + name@ + "' not found in schema"@,
            Error::StatsColumnNotFound { name } => "stats_columns: column '"@ + name@ + "' not found in schema"@,
            Error::StatsTypeUnsupported { name, data_type } => "stats_columns: column '"@ + name@ + "' has unsupported type "@ + type_text(data_type) + " for statistics"@,
            Error::RowGroupOutOfRange => "row group index out of range"@,
            Error::RowGroupIndexOutOfRange { index, num_row_groups } => "row group index "@ + number_chars(index as nat) + " out of range (num_row_groups="@ + number_chars(num_row_groups as nat) + ")"@,
            Error::ProjectedColumnOutOfRange { column, num_columns } => "projected column index "@ + number_chars(column as nat) + " out of range (num_columns="@ + number_chars(num_columns as nat) + ")"@,
            Error::UnsupportedBucketCompression => "unsupported compression"@,
            Error::PagedBucketNotZstd => "paged bucket requires ZSTD compression"@,
            Error::DirectoryTooLarge { bucket, dir_size, total_size } => "paged bucket "@ + number_chars(bucket as nat) + ": directory size "@ + number_chars(dir_size as nat) + " exceeds total size "@ + number_chars(total_size as nat),
            Error::SlotSumMismatch { bucket, total } => "paged bucket "@ + number_chars(bucket as nat) + ": slot sizes do not sum to total "@ + number_chars(total as nat),
            Error::ChildHeaderTooShort => "paged bucket: too short for child header"@,
            Error::ChildHeaderTruncated => "paged bucket: truncated child header"@,
            Error::DirectoryTruncated => "paged bucket: truncated directory"@,
            Error::DirectoryMismatch { bucket, dir_size, slot_total, total_size } => "paged bucket "@ + number_chars(bucket as nat) + ": directory ("@ + number_chars(dir_size as nat) + ") + slots ("@ + number_chars(slot_total as nat) + ") != total size ("@ + number_chars(total_size as nat) + ")"@,
            Error::PageContentTooShort => "paged bucket: page_content too short"@,
            Error::ConstValueTruncated => "paged bucket: page_content truncated at const value"@,
            Error::NestedEncodedColumn { name } => "encoded access does not support nested column '"@ + name@ + "'"@,
            Error::BucketNotLoaded { bucket } => "projected bucket "@ + number_chars(bucket as nat) + " was not loaded"@,
            Error::ColumnMissingFromPagedBucket { column, bucket } => "projected column "@ + number_chars(column as nat) + " missing from paged bucket "@ + number_chars(bucket as nat),
            Error::WriterAborted => "writer is aborted after a previous failure"@,
            Error::WriterClosed => "writer is already closed"@,
            Error::UnsupportedOutputCompression { code } => "Unsupported compression: "@ + number_chars(code as nat),
            Error::ColumnCountMismatch { expected, actual } => "column count mismatch: schema has "@ + number_chars(expected as nat) + " but batch has "@ + number_chars(actual as nat),
            Error::FieldNameMismatch { column, expected_name, actual_name } => "field name mismatch at column "@ + number_chars(column as nat) + ": schema has '"@ + expected_name@ + "' but batch has '"@ + actual_name@ + "'"@,
            Error::ColumnTypeMismatch { name, expected_type, actual_type } => "column '"@ + name@ + "' type mismatch: expected "@ + type_text(expected_type) + ", got "@ + type_text(actual_type),
            Error::UnexpectedNulls { name, nulls } => "non-nullable column '"@ + name@ + "' has "@ + number_chars(nulls as nat) + " nulls in batch"@,
            Error::TooManyColumns => "too many columns in one bucket"@,
            Error::OutputBudgetExceeded => "columnar JSON exceeds the 536870912 byte uncompressed output budget"@,
            Error::RowBudgetExceeded { rows } => "columnar JSON row count "@ + number_chars(rows as nat) + " exceeds the 1000000 row budget"@,
            Error::TooManyJavaDoubles => "columnar JSON requires more than 65536 distinct Java-formatted DOUBLE values"@,
            Error::JavaDoubleCountMismatch { returned, requested } => "Java returned "@ + number_chars(returned as nat) + " DOUBLE strings for "@ + number_chars(requested as nat) + " requested values"@,
            Error::JavaDoubleNotUtf8 { valid_up_to, error_len } => "Java returned non-UTF-8 DOUBLE text: "@ + fault_text(valid_up_to, error_len),
            Error::JavaDoubleInvalid { rendered } => "Java returned invalid DOUBLE text '"@ + rendered@ + "': "@ + parse_text(rendered@),
            Error::JavaDoubleMismatch { rendered, bits } => "Java DOUBLE text '"@ + rendered@ + "' does not round-trip to 0x"@ + hex_chars(bits as nat, 16),
            Error::MissingJavaDouble { bits } => "missing Java DOUBLE rendering for 0x"@ + hex_chars(bits as nat, 16),
            Error::MissingDoubleText { bits } => "missing shortest DOUBLE text for 0x"@ + hex_chars(bits as nat, 16),
            Error::NonFiniteDouble => "non-finite DOUBLE reached the columnar JSON writer"@,
            Error::EncodedTypeMismatch { data_type } => "encoded value does not match column type "@ + type_text(data_type),
            Error::ColumnRowCountMismatch { rows, expected } => "column row count "@ + number_chars(rows as nat) + " does not match row group row count "@ + number_chars(expected as nat),
            Error::DecimalOverPrecision { precision, scale } => "decimal value exceeds declared precision "@ + number_chars(precision as nat) + " for Decimal128("@ + number_chars(precision as nat) + ", "@ + signed_chars(scale as int) + ")"@,
            Error::InvalidDecimalWidth { width } => "invalid Decimal128 byte width "@ + number_chars(width as nat),
            Error::InvalidUtf8Value { valid_up_to, error_len } => "invalid UTF-8 column value: "@ + fault_text(valid_up_to, error_len),
            Error::MissingConst => "missing CONST value"@,
            Error::UnsupportedColumnEncoding { code } => "unsupported column encoding Other("@ + number_chars(code as nat) + ")"@,
            Error::BlockCacheSize => "nullable CONST block cache must contain 256 entries"@,
            Error::NullBitmapTruncated => "nullable CONST null bitmap is truncated"@,
            Error::InvalidDoubleText { rendering } => "invalid finite double rendering '"@ + rendering@ + "'"@,
            Error::MissingExponent => "missing floating-point exponent"@,
            Error::InvalidExponent => "invalid floating-point exponent"@,
            Error::ExponentOverflow => "floating-point exponent overflow"@,
            Error::ZstdStream { name } => name@,
            Error::NoProgress { operation } => operation.text() + " made no progress"@,
            Error::Io { message, .. } => message@,
        }
    }

    /// The message of an error.
    pub fn message(&self) -> (text: String)
        ensures
            text@ == self.text(),
    {
        match self {
            Error::TruncatedVarint => "truncated varint".to_owned(),
            Error::OversizedVarint => "varint exceeds 32 bits".to_owned(),
            Error::NanosOutOfRange { nanos } => {
                let mut text: String = "timestamp nanos of millisecond out of range: ".to_owned();
                push_signed(&mut text, *nanos as i32);
                text
            },
            Error::TimestampOverflow => "timestamp nanos overflow".to_owned(),
            Error::TruncatedValueLength => "truncated varint in variable-length value".to_owned(),
            Error::TruncatedValue => "buffer truncated in variable-length value".to_owned(),
            Error::TruncatedColumnData => "column data truncated".to_owned(),
            Error::UnsupportedEncodedType { data_type } => {
                let mut text: String = "unsupported encoded data type: ".to_owned();
                push_type(&mut text, data_type);
                text
            },
            Error::LegacyNullChild => "legacy timestamp nanos has null child for a non-null parent row".to_owned(),
            Error::InvalidLegacyNanos { nanos } => {
                let mut text: String = "timestamp nanos of millisecond out of range: ".to_owned();
                push_signed(&mut text, *nanos as i32);
                text
            },
            Error::LegacyTimestampOverflow => "timestamp nanos overflow".to_owned(),
            Error::MissingChildColumn { parent, length, role } => {
                let mut text: String = "missing complex child column: parent=".to_owned();
                push_number(&mut text, *parent as u64);
                text.append(", length=");
                push_number(&mut text, *length as u64);
                text.append(", role=");
                text.append(role.name());
                text
            },
            Error::ExpectedListArray => "expected ListArray".to_owned(),
            Error::ExpectedMapArray => "expected MapArray".to_owned(),
            Error::ArrayTypeMismatch { data_type } => {
                let mut text: String = "array downcast failed for DataType: ".to_owned();
                push_type(&mut text, data_type);
                text
            },
            Error::TooManyRows => "too many rows".to_owned(),
            Error::DecimalTooLong => "decimal value is longer than 16 bytes".to_owned(),
            Error::CorruptDictIndex => "corrupt dict index".to_owned(),
            Error::DictIndexOverflow => "dict index offset overflow".to_owned(),
            Error::TruncatedDictIndexes => "truncated dict indexes".to_owned(),
            Error::UnsupportedEncoding { code } => {
                let mut text: String = "unsupported encoding ".to_owned();
                push_number(&mut text, *code as u64);
                text
            },
            Error::RangeOutOfBounds => "read range buffer bounds exceed backing data".to_owned(),
            Error::BucketTruncated => "bucket data truncated".to_owned(),
            Error::PageTruncated { part } => {
                let mut text: String = "column page truncated".to_owned();
                text.append(part.suffix());
                text
            },
            Error::UnsupportedPageEncoding { code } => {
                let mut text: String = "column page: unsupported encoding ".to_owned();
                push_number(&mut text, *code as u64);
                text
            },
            Error::PageStartOutOfBounds => "column page data start out of bounds".to_owned(),
            Error::ColumnOutOfRange { column, num_columns } => {
                let mut text: String = "column index ".to_owned();
                push_number(&mut text, *column as u64);
                text.append(" out of range (num_columns=");
                push_number(&mut text, *num_columns as u64);
                text.append(")");
                text
            },
            Error::CorruptLengths => "corrupt lengths of nested rows".to_owned(),
            Error::DecompressedSizeOverCap { size, cap, block } => {
                let mut text: String = "declared uncompressed size ".to_owned();
                push_number(&mut text, *size as u64);
                text.append(" exceeds cap ");
                push_number(&mut text, *cap as u64);
                text.append(" for ");
                push_number(&mut text, *block as u64);
                text.append("-byte block");
                text
            },
            Error::DecompressionFailed => "zstd decompression failed".to_owned(),
            Error::CompressionFailed => "zstd compression failed".to_owned(),
            Error::BlockTooLarge { field, size } => {
                let mut text: String = field.name().to_owned();
                text.append(" (");
                push_number(&mut text, *size as u64);
                text.append(") exceeds max zstd decompressed block size (1073741824)");
                text
            },
            Error::SizeOverU32 { field, size } => {
                let mut text: String = field.name().to_owned();
                text.append(" (");
                push_number(&mut text, *size as u64);
                text.append(") exceeds u32::MAX");
                text
            },
            Error::FileTooSmall => "file too small".to_owned(),
            Error::BadMagic => "bad magic bytes".to_owned(),
            Error::UnsupportedVersion { version } => {
                let mut text: String = "unsupported version: ".to_owned();
                push_number(&mut text, *version as u64);
                text
            },
            Error::CorruptFooter => "corrupted footer offsets".to_owned(),
            Error::UnsupportedCompression { code } => {
                let mut text: String = "unsupported compression: ".to_owned();
                push_number(&mut text, *code as u64);
                text
            },
            Error::BucketCountMismatch => "footer num_buckets does not match schema".to_owned(),
            Error::NoBuckets => "num_buckets must be > 0".to_owned(),
            Error::NonEmptyCountTooLarge => "non_empty count exceeds num_buckets".to_owned(),
            Error::CorruptRowGroupIndex => "corrupted row group index".to_owned(),
            Error::DuplicateBucket => "duplicate bucket_id in row group index".to_owned(),
            Error::InvalidBucketLayout => "invalid bucket layout".to_owned(),
            Error::BucketOffsetOverflow => "bucket offset overflow".to_owned(),
            Error::BucketPastSchema => "bucket data extends past schema block".to_owned(),
            Error::TrailingIndexBytes => "trailing bytes in row group index".to_owned(),
            Error::ColumnNotFound { name } => {
                let mut text: String = "column '".to_owned();
                text.append(name.as_str());
                text.append("' not found in schema");
                text
            },
            Error::StatsColumnNotFound { name } => {
                let mut text: String = "stats_columns: column '".to_owned();
                text.append(name.as_str());
                text.append("' not found in schema");
                text
            },
            Error::StatsTypeUnsupported { name, data_type } => {
                let mut text: String = "stats_columns: column '".to_owned();
                text.append(name.as_str());
                text.append("' has unsupported type ");
                push_type(&mut text, data_type);
                text.append(" for statistics");
                text
            },
            Error::RowGroupOutOfRange => "row group index out of range".to_owned(),
            Error::RowGroupIndexOutOfRange { index, num_row_groups } => {
                let mut text: String = "row group index ".to_owned();
                push_number(&mut text, *index as u64);
                text.append(" out of range (num_row_groups=");
                push_number(&mut text, *num_row_groups as u64);
                text.append(")");
                text
            },
            Error::ProjectedColumnOutOfRange { column, num_columns } => {
                let mut text: String = "projected column index ".to_owned();
                push_number(&mut text, *column as u64);
                text.append(" out of range (num_columns=");
                push_number(&mut text, *num_columns as u64);
                text.append(")");
                text
            },
            Error::UnsupportedBucketCompression => "unsupported compression".to_owned(),
            Error::PagedBucketNotZstd => "paged bucket requires ZSTD compression".to_owned(),
            Error::DirectoryTooLarge { bucket, dir_size, total_size } => {
                let mut text: String = "paged bucket ".to_owned();
                push_number(&mut text, *bucket as u64);
                text.append(": directory size ");
                push_number(&mut text, *dir_size as u64);
                text.append(" exceeds total size ");
                push_number(&mut text, *total_size as u64);
                text
            },
            Error::SlotSumMismatch { bucket, total } => {
                let mut text: String = "paged bucket ".to_owned();
                push_number(&mut text, *bucket as u64);
                text.append(": slot sizes do not sum to total ");
                push_number(&mut text, *total as u64);
                text
            },
            Error::ChildHeaderTooShort => "paged bucket: too short for child header".to_owned(),
            Error::ChildHeaderTruncated => "paged bucket: truncated child header".to_owned(),
            Error::DirectoryTruncated => "paged bucket: truncated directory".to_owned(),
            Error::DirectoryMismatch { bucket, dir_size, slot_total, total_size } => {
                let mut text: String = "paged bucket ".to_owned();
                push_number(&mut text, *bucket as u64);
                text.append(": directory (");
                push_number(&mut text, *dir_size as u64);
                text.append(") + slots (");
                push_number(&mut text, *slot_total as u64);
                text.append(") != total size (");
                push_number(&mut text, *total_size as u64);
                text.append(")");
                text
            },
            Error::PageContentTooShort => "paged bucket: page_content too short".to_owned(),
            Error::ConstValueTruncated => "paged bucket: page_content truncated at const value".to_owned(),
            Error::NestedEncodedColumn { name } => {
                let mut text: String = "encoded access does not support nested column '".to_owned();
                text.append(name.as_str());
                text.append("'");
                text
            },
            Error::BucketNotLoaded { bucket } => {
                let mut text: String = "projected bucket ".to_owned();
                push_number(&mut text, *bucket as u64);
                text.append(" was not loaded");
                text
            },
            Error::ColumnMissingFromPagedBucket { column, bucket } => {
                let mut text: String = "projected column ".to_owned();
                push_number(&mut text, *column as u64);
                text.append(" missing from paged bucket ");
                push_number(&mut text, *bucket as u64);
                text
            },
            Error::WriterAborted => "writer is aborted after a previous failure".to_owned(),
            Error::WriterClosed => "writer is already closed".to_owned(),
            Error::UnsupportedOutputCompression { code } => {
                let mut text: String = "Unsupported compression: ".to_owned();
                push_number(&mut text, *code as u64);
                text
            },
            Error::ColumnCountMismatch { expected, actual } => {
                let mut text: String = "column count mismatch: schema has ".to_owned();
                push_number(&mut text, *expected as u64);
                text.append(" but batch has ");
                push_number(&mut text, *actual as u64);
                text
            },
            Error::FieldNameMismatch { column, expected_name, actual_name } => {
                let mut text: String = "field name mismatch at column ".to_owned();
                push_number(&mut text, *column as u64);
                text.append(": schema has '");
                text.append(expected_name.as_str());
                text.append("' but batch has '");
                text.append(actual_name.as_str());
                text.append("'");
                text
            },
            Error::ColumnTypeMismatch { name, expected_type, actual_type } => {
                let mut text: String = "column '".to_owned();
                text.append(name.as_str());
                text.append("' type mismatch: expected ");
                push_type(&mut text, expected_type);
                text.append(", got ");
                push_type(&mut text, actual_type);
                text
            },
            Error::UnexpectedNulls { name, nulls } => {
                let mut text: String = "non-nullable column '".to_owned();
                text.append(name.as_str());
                text.append("' has ");
                push_number(&mut text, *nulls as u64);
                text.append(" nulls in batch");
                text
            },
            Error::TooManyColumns => "too many columns in one bucket".to_owned(),
            Error::OutputBudgetExceeded => "columnar JSON exceeds the 536870912 byte uncompressed output budget".to_owned(),
            Error::RowBudgetExceeded { rows } => {
                let mut text: String = "columnar JSON row count ".to_owned();
                push_number(&mut text, *rows as u64);
                text.append(" exceeds the 1000000 row budget");
                text
            },
            Error::TooManyJavaDoubles => "columnar JSON requires more than 65536 distinct Java-formatted DOUBLE values".to_owned(),
            Error::JavaDoubleCountMismatch { returned, requested } => {
                let mut text: String = "Java returned ".to_owned();
                push_number(&mut text, *returned as u64);
                text.append(" DOUBLE strings for ");
                push_number(&mut text, *requested as u64);
                text.append(" requested values");
                text
            },
            Error::JavaDoubleNotUtf8 { valid_up_to, error_len } => {
                let mut text: String = "Java returned non-UTF-8 DOUBLE text: ".to_owned();
                push_fault(&mut text, *valid_up_to, *error_len);
                text
            },
            Error::JavaDoubleInvalid { rendered } => {
                let mut text: String = "Java returned invalid DOUBLE text '".to_owned();
                text.append(rendered.as_str());
                text.append("': ");
                text.append(parse_reason(rendered));
                text
            },
            Error::JavaDoubleMismatch { rendered, bits } => {
                let mut text: String = "Java DOUBLE text '".to_owned();
                text.append(rendered.as_str());
                text.append("' does not round-trip to 0x");
                push_hex(&mut text, *bits, 16);
                text
            },
            Error::MissingJavaDouble { bits } => {
                let mut text: String = "missing Java DOUBLE rendering for 0x".to_owned();
                push_hex(&mut text, *bits, 16);
                text
            },
            Error::MissingDoubleText { bits } => {
                let mut text: String = "missing shortest DOUBLE text for 0x".to_owned();
                push_hex(&mut text, *bits, 16);
                text
            },
            Error::NonFiniteDouble => "non-finite DOUBLE reached the columnar JSON writer".to_owned(),
            Error::EncodedTypeMismatch { data_type } => {
                let mut text: String = "encoded value does not match column type ".to_owned();
                push_type(&mut text, data_type);
                text
            },
            Error::ColumnRowCountMismatch { rows, expected } => {
                let mut text: String = "column row count ".to_owned();
                push_number(&mut text, *rows as u64);
                text.append(" does not match row group row count ");
                push_number(&mut text, *expected as u64);
                text
            },
            Error::DecimalOverPrecision { precision, scale } => {
                let mut text: String = "decimal value exceeds declared precision ".to_owned();
                push_number(&mut text, *precision as u64);
                text.append(" for Decimal128(");
                push_number(&mut text, *precision as u64);
                text.append(", ");
                push_signed(&mut text, *scale as i32);
                text.append(")");
                text
            },
            Error::InvalidDecimalWidth { width } => {
                let mut text: String = "invalid Decimal128 byte width ".to_owned();
                push_number(&mut text, *width as u64);
                text
            },
            Error::InvalidUtf8Value { valid_up_to, error_len } => {
                let mut text: String = "invalid UTF-8 column value: ".to_owned();
                push_fault(&mut text, *valid_up_to, *error_len);
                text
            },
            Error::MissingConst => "missing CONST value".to_owned(),
            Error::UnsupportedColumnEncoding { code } => {
                let mut text: String = "unsupported column encoding Other(".to_owned();
                push_number(&mut text, *code as u64);
                text.append(")");
                text
            },
            Error::BlockCacheSize => "nullable CONST block cache must contain 256 entries".to_owned(),
            Error::NullBitmapTruncated => "nullable CONST null bitmap is truncated".to_owned(),
            Error::InvalidDoubleText { rendering } => {
                let mut text: String = "invalid finite double rendering '".to_owned();
                text.append(rendering.as_str());
                text.append("'");
                text
            },
            Error::MissingExponent => "missing floating-point exponent".to_owned(),
            Error::InvalidExponent => "invalid floating-point exponent".to_owned(),
            Error::ExponentOverflow => "floating-point exponent overflow".to_owned(),
            Error::ZstdStream { name } => name.clone(),
            Error::NoProgress { operation } => {
                let mut text: String = operation.name().to_owned();
                text.append(" made no progress");
                text
            },
            Error::Io { message, .. } => message.clone(),
        }
    }
}

} // verus!
