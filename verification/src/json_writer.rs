//! Row groups as columnar JSON: an object with a text for each column, in which the values of the
//! rows are separated by commas.
use vstd::prelude::*;
use vstd::utf8::encode_utf8;
use crate::const_fill::{count_valid, lemma_rank_bound, lemma_rank_step, rank_of};
use crate::encoded_column::{EncodedColumn, EncodedColumnValues, EncodedColumnView};
use crate::error::Error;
use crate::format::{ENCODING_CONST, ENCODING_DICT, ENCODING_PLAIN};
use crate::columnar_json::{written_column, written_name, written_type};
use crate::json_columns::{decimal_value, decode_decimal_value, encoded_type_mismatch, has_non_null, is_known_encoding};
use crate::json_doubles::{double_text, write_exact_double, write_separated, EncodedJsonPlan, PlanView};
use crate::json_repeat::{
    bitmap_nulls, bitmap_view, cache_ok, empty_rows, kept_bytes, no_nulls, row_text, rows_text, write_empty_array,
    write_nullable_repeated_rows, write_repeated_value, write_utf8_constant, NULLABLE_CONST_PATTERN_COUNT,
};
use crate::json_numbers::read_integer;
use crate::json_text::{appended, appends, decimal_text, escaped, number_text, separated, write_decimal, write_escaped_utf8_chunked,
    write_i64_value, REPEATED_VALUE_BUFFER_BYTES};
use crate::output::{writes_within, OutputFile};
use crate::reader::Encoding;
use crate::row_group_reader::RowGroupReader;
use crate::types::DataType;
use crate::values::{checked_value, EncodedValueRef, ValueView};

verus! {

// ---------------------------------------------------------------- model

/// The text of a value in a column of type `dt`.
pub open spec fn value_text(dt: DataType, v: ValueView, plan: PlanView) -> Result<Seq<u8>, Error> {
    if v is Null {
        Ok(Seq::empty())
    } else {
        match dt {
            DataType::Int8 => match v {
                ValueView::TinyInt(x) => Ok(number_text(x as int)),
                _ => Err(Error::EncodedTypeMismatch { data_type: dt }),
            },
            DataType::Int16 => match v {
                ValueView::SmallInt(x) => Ok(number_text(x as int)),
                _ => Err(Error::EncodedTypeMismatch { data_type: dt }),
            },
            DataType::Int32 => match v {
                ValueView::Integer(x) => Ok(number_text(x as int)),
                _ => Err(Error::EncodedTypeMismatch { data_type: dt }),
            },
            DataType::Int64 => match v {
                ValueView::BigInt(x) => Ok(number_text(x as int)),
                _ => Err(Error::EncodedTypeMismatch { data_type: dt }),
            },
            DataType::Float64 => match v {
                ValueView::Double(bits) => double_text(bits, plan),
                _ => Err(Error::EncodedTypeMismatch { data_type: dt }),
            },
            DataType::Decimal128(_, scale) => match decimal_value(dt, v) {
                Ok(x) => Ok(decimal_text(x, scale as int)),
                Err(e) => Err(e),
            },
            DataType::Utf8 => match v {
                ValueView::String(s) => Ok(escaped(s)),
                _ => Err(Error::EncodedTypeMismatch { data_type: dt }),
            },
            _ => Err(Error::EncodedTypeMismatch { data_type: dt }),
        }
    }
}

/// The text of the value in row `r`.
pub open spec fn row_json(dt: DataType, c: EncodedColumnView, plan: PlanView, r: int) -> Result<Seq<u8>, Error> {
    match c.value_at(r) {
        Err(e) => Err(e),
        Ok(v) => value_text(dt, v, plan),
    }
}

/// The texts of the first `n` rows, separated by commas; the first error tells why there are none.
pub open spec fn rows_json(dt: DataType, c: EncodedColumnView, plan: PlanView, n: nat) -> Result<Seq<u8>, Error>
    decreases n,
{
    if n == 0 {
        Ok(Seq::empty())
    } else {
        match rows_json(dt, c, plan, (n - 1) as nat) {
            Err(e) => Err(e),
            Ok(before) => match row_json(dt, c, plan, n - 1) {
                Err(e) => Err(e),
                Ok(text) => Ok(before + separated(n > 1, text)),
            },
        }
    }
}

/// The constant of a column is a text whose length cannot be counted.
pub open spec fn is_uncountable(dt: DataType, c: EncodedColumnView) -> bool {
    c.encoding == ENCODING_CONST && dt is Utf8 && count_valid(c.nulls()) > 0 && (checked_value(c.dt, c.const_value) matches Ok(
        ValueView::String(s),
    ) && escaped(s).len() > usize::MAX)
}

/// The text of a column.
pub open spec fn column_json(dt: DataType, c: EncodedColumnView, plan: PlanView) -> Result<Seq<u8>, Error> {
    if !is_known_encoding(c.encoding) {
        Err(Error::UnsupportedColumnEncoding { code: c.encoding })
    } else if is_uncountable(dt, c) {
        Err(Error::OutputBudgetExceeded)
    } else {
        rows_json(dt, c, plan, c.rows)
    }
}

/// A column in the object: its name and its text, both in quotes.
pub open spec fn member(name: Seq<char>, text: Seq<u8>, first: bool) -> Seq<u8> {
    separated(!first, seq![34u8]) + escaped(encode_utf8(name)) + seq![34u8, 58u8, 34u8] + text + seq![34u8]
}

/// The first `n` columns in the object.
pub open spec fn members(reader: RowGroupReader, plan: PlanView, n: nat) -> Result<Seq<u8>, Error>
    decreases n,
{
    if n == 0 {
        Ok(Seq::empty())
    } else {
        match members(reader, plan, (n - 1) as nat) {
            Err(e) => Err(e),
            Ok(before) => match written_column(reader, n - 1) {
                Err(e) => Err(e),
                Ok(c) => match column_json(written_type(reader, n - 1), c, plan) {
                    Err(e) => Err(e),
                    Ok(text) => Ok(before + member(written_name(reader, n - 1), text, n == 1)),
                },
            },
        }
    }
}

/// The object.
pub open spec fn object_json(reader: RowGroupReader, plan: PlanView) -> Result<Seq<u8>, Error> {
    match reader.nested_error() {
        Some(e) => Err(e),
        None => match members(reader, plan, reader.visited().len()) {
            Err(e) => Err(e),
            Ok(text) => Ok(seq![123u8] + text + seq![125u8]),
        },
    }
}

/// What writing leaves behind: the text, or the error that stands in its place; the output may fail
/// before that is known.
pub open spec fn writes<W: OutputFile>(before: W, after: W, result: Result<(), Error>, text: Result<Seq<u8>, Error>) -> bool {
    match text {
        Ok(bytes) => appends(before, after, result, bytes),
        Err(e) => result matches Err(x) && (x == e || (x is Io && !before.never_fails())),
    }
}

// ---------------------------------------------------------------- values

/// Writes a value, behind a comma if there is one before it.
pub fn write_encoded_value<W: OutputFile>(
    output: &mut W,
    data_type: &DataType,
    value: EncodedValueRef<'_>,
    separator: bool,
    plan: &EncodedJsonPlan,
) -> (result: Result<(), Error>)
    requires
        plan.wf(),
    ensures
        match value_text(*data_type, value@, plan@) {
            Ok(text) => appends(*old(output), *final(output), result, separated(separator, text)),
            Err(e) => result == Err::<(), Error>(e) && final(output).written() == old(output).written(),
        },
        value is Utf8 ==> writes_within(*old(output), *final(output), REPEATED_VALUE_BUFFER_BYTES as nat),
        result is Ok ==> match value@ {
            ValueView::Null => final(output).written() == old(output).written() + separated(separator, Seq::empty()),
            ValueView::TinyInt(x) => read_integer(appended(*old(output), *final(output), separator)) == Some(x as int),
            ValueView::SmallInt(x) => read_integer(appended(*old(output), *final(output), separator)) == Some(x as int),
            ValueView::Integer(x) => read_integer(appended(*old(output), *final(output), separator)) == Some(x as int),
            ValueView::BigInt(x) => read_integer(appended(*old(output), *final(output), separator)) == Some(x as int),
            _ => true,
        },
{
    match (data_type, value) {
        (_, EncodedValueRef::Null) => {
            let nothing: Vec<u8> = Vec::new();
            assert(nothing@ =~= Seq::<u8>::empty());
            if separator {
                return write_separated(output, nothing.as_slice(), true);
            }
            assert(output.written() =~= old(output).written() + separated(false, Seq::empty()));
            Ok(())
        },
        (DataType::Int8, EncodedValueRef::Int8(x)) => write_i64_value(output, x as i64, separator),
        (DataType::Int16, EncodedValueRef::Int16(x)) => write_i64_value(output, x as i64, separator),
        (DataType::Int32, EncodedValueRef::Int32(x)) => write_i64_value(output, x as i64, separator),
        (DataType::Int64, EncodedValueRef::Int64(x)) => write_i64_value(output, x, separator),
        (DataType::Float64, EncodedValueRef::Float64(bits)) => write_exact_double(output, bits, separator, plan),
        (DataType::Decimal128(_, scale), _) => match decode_decimal_value(data_type, value) {
            Ok(unscaled) => write_decimal(output, unscaled, *scale, separator),
            Err(e) => Err(e),
        },
        (DataType::Utf8, EncodedValueRef::Utf8(text)) => {
            let ghost start = output.written();
            if separator {
                let comma: Vec<u8> = vec![44u8; 1];
                assert(comma@ =~= seq![44u8]);
                match output.write(comma.as_slice()) {
                    Ok(_) => {},
                    Err(e) => {
                        return Err(e);
                    },
                }
            }
            match write_escaped_utf8_chunked(output, text) {
                Ok(_) => {},
                Err(e) => {
                    return Err(e);
                },
            }
            assert(output.written() =~= start + separated(separator, escaped(text@)));
            Ok(())
        },
        _ => Err(encoded_type_mismatch(data_type)),
    }
}

// ---------------------------------------------------------------- columns

proof fn lemma_rows_json_error(dt: DataType, c: EncodedColumnView, plan: PlanView, n: nat, m: nat)
    requires
        n <= m,
        rows_json(dt, c, plan, n) is Err,
    ensures
        rows_json(dt, c, plan, m) == rows_json(dt, c, plan, n),
    decreases m,
{
    if n < m {
        lemma_rows_json_error(dt, c, plan, n, (m - 1) as nat);
    }
}

/// Rows that are all null.
pub proof fn lemma_null_rows_json(dt: DataType, c: EncodedColumnView, plan: PlanView, n: nat)
    requires
        n <= c.rows,
        forall|r: int| 0 <= r < n ==> #[trigger] c.nulls()[r],
    ensures
        rows_json(dt, c, plan, n) == Ok::<Seq<u8>, Error>(empty_rows(n)),
    decreases n,
{
    if n == 0 {
        assert(empty_rows(0) =~= Seq::empty());
    } else {
        lemma_null_rows_json(dt, c, plan, (n - 1) as nat);
        assert(c.nulls()[n - 1]);
        assert(c.value_at(n - 1) == Ok::<ValueView, Error>(ValueView::Null));
        assert(empty_rows((n - 1) as nat) + separated(n > 1, Seq::empty()) =~= empty_rows(n));
    }
}

/// The text of a constant.
pub open spec fn const_text(dt: DataType, c: EncodedColumnView, plan: PlanView) -> Result<Seq<u8>, Error> {
    match checked_value(c.dt, c.const_value) {
        Err(e) => Err(e),
        Ok(v) => value_text(dt, v, plan),
    }
}

/// Rows of a constant column.
proof fn lemma_const_json(dt: DataType, c: EncodedColumnView, plan: PlanView, n: nat)
    requires
        c.encoding == ENCODING_CONST,
        n <= c.rows,
    ensures
        ({
            let rank = rank_of(c.nulls(), n as int);
            match const_text(dt, c, plan) {
                Ok(text) => rows_json(dt, c, plan, n) == Ok::<Seq<u8>, Error>(rows_text(text, c.nulls(), n)),
                Err(e) => rank > 0 ==> rows_json(dt, c, plan, n) == Err::<Seq<u8>, Error>(e),
            }
        }),
        rank_of(c.nulls(), n as int) == 0 ==> rows_json(dt, c, plan, n) == Ok::<Seq<u8>, Error>(empty_rows(n)),
    decreases n,
{
    lemma_rank_bound(c.nulls(), n as int);
    if n == 0 {
        assert(empty_rows(0) =~= Seq::empty());
    } else {
        lemma_const_json(dt, c, plan, (n - 1) as nat);
        lemma_rank_step(c.nulls(), n - 1);
        lemma_rank_bound(c.nulls(), n - 1);
        let before = rows_json(dt, c, plan, (n - 1) as nat);
        if c.nulls()[n - 1] {
            assert(c.value_at(n - 1) == Ok::<ValueView, Error>(ValueView::Null));
            assert(empty_rows((n - 1) as nat) + separated(n > 1, Seq::empty()) =~= empty_rows(n));
            match const_text(dt, c, plan) {
                Ok(text) => {
                    assert(separated(n > 1, Seq::empty()) =~= row_text(text, true, n == 1));
                },
                Err(_) => {},
            }
        } else {
            assert(c.value_at(n - 1) == checked_value(c.dt, c.const_value));
            match const_text(dt, c, plan) {
                Ok(text) => {
                    assert(separated(n > 1, text) =~= row_text(text, false, n == 1));
                },
                Err(_) => {},
            }
        }
    }
}

/// The buffers that the columns share.
pub struct EncodedJsonWriter {
    value_buffer: Vec<u8>,
    repeated_buffer: Vec<u8>,
    nullable_block_cache: Vec<Option<Vec<u8>>>,
    nullable_cache_bytes: usize,
    column_index: usize,
}

proof fn lemma_nothing_kept(cache: Seq<Option<Vec<u8>>>, n: nat)
    requires
        n <= cache.len(),
        forall|v: int| 0 <= v < cache.len() ==> #[trigger] cache[v] is None,
    ensures
        kept_bytes(cache, n) == 0,
    decreases n,
{
    if n > 0 {
        lemma_nothing_kept(cache, (n - 1) as nat);
        assert(cache[n - 1] is None);
    }
}

fn empty_cache() -> (cache: Vec<Option<Vec<u8>>>)
    ensures
        cache@.len() == NULLABLE_CONST_PATTERN_COUNT,
        forall|value: Seq<u8>| #[trigger] cache_ok(cache@, 0, value),
{
    let mut cache: Vec<Option<Vec<u8>>> = Vec::new();
    let mut i: usize = 0;
    while i < NULLABLE_CONST_PATTERN_COUNT
        invariant
            i <= NULLABLE_CONST_PATTERN_COUNT,
            cache@.len() == i,
            forall|v: int| 0 <= v < cache@.len() ==> #[trigger] cache@[v] is None,
        decreases NULLABLE_CONST_PATTERN_COUNT - i,
    {
        cache.push(None);
        i += 1;
    }
    proof {
        lemma_nothing_kept(cache@, cache@.len());
    }
    cache
}

impl EncodedJsonWriter {
    pub closed spec fn wf(&self) -> bool {
        self.nullable_block_cache@.len() == NULLABLE_CONST_PATTERN_COUNT
    }

    /// The number of columns written so far.
    pub closed spec fn columns_written(&self) -> int {
        self.column_index as int
    }

    pub fn new() -> (writer: Self)
        ensures
            writer.wf(),
            writer.columns_written() == 0,
    {
        EncodedJsonWriter {
            value_buffer: Vec::new(),
            repeated_buffer: Vec::new(),
            nullable_block_cache: empty_cache(),
            nullable_cache_bytes: 0,
            column_index: 0,
        }
    }

    /// Writes the rows of a constant column.
    fn write_constant<W: OutputFile>(
        &mut self,
        output: &mut W,
        data_type: &DataType,
        column: EncodedColumn<'_>,
        plan: &EncodedJsonPlan,
    ) -> (result: Result<(), Error>)
        requires
            old(self).wf(),
            plan.wf(),
            column@.wf(),
            column@.encoding == ENCODING_CONST,
        ensures
            final(self).wf(),
            final(self).columns_written() == old(self).columns_written(),
            writes(*old(output), *final(output), result, column_json(*data_type, column@, plan@)),
    {
        let ghost c = column@;
        let rows: usize = column.num_rows();
        proof {
            lemma_const_json(*data_type, c, plan@, c.rows);
            lemma_rank_bound(c.nulls(), c.rows as int);
        }
        if !has_non_null(&column) {
            return write_empty_array(output, rows);
        }
        let value: EncodedValueRef<'_> = match column.constant() {
            Err(e) => {
                return Err(e);
            },
            Ok(None) => {
                return Err(Error::MissingConst);
            },
            Ok(Some(value)) => value,
        };
        let bitmap: Option<&[u8]> = column.null_bitmap();
        proof {
            assert(c.nulls() =~= bitmap_nulls(bitmap_view(bitmap), c.rows));
            assert(bitmap is None ==> c.nulls() =~= no_nulls(c.rows));
        }
        if bitmap.is_some() {
            self.nullable_block_cache = empty_cache();
            self.nullable_cache_bytes = 0;
        }
        match (data_type, value) {
            (DataType::Utf8, EncodedValueRef::Utf8(text)) => {
                return write_utf8_constant(
                    output,
                    text,
                    rows,
                    bitmap,
                    &mut self.value_buffer,
                    &mut self.repeated_buffer,
                    &mut self.nullable_block_cache,
                    &mut self.nullable_cache_bytes,
                );
            },
            _ => {},
        }
        self.value_buffer.clear();
        match write_encoded_value(&mut self.value_buffer, data_type, value, false, plan) {
            Ok(_) => {},
            Err(e) => {
                return Err(e);
            },
        }
        let ghost text = value_text(*data_type, value@, plan@)->Ok_0;
        assert(self.value_buffer@ =~= text);
        match bitmap {
            Some(nulls) => write_nullable_repeated_rows(
                output,
                self.value_buffer.as_slice(),
                rows,
                nulls,
                &mut self.nullable_block_cache,
                &mut self.nullable_cache_bytes,
                &mut self.repeated_buffer,
            ),
            None => write_repeated_value(output, self.value_buffer.as_slice(), rows, &mut self.repeated_buffer),
        }
    }

    /// Writes the rows of a column.
    fn write_array<W: OutputFile>(
        &mut self,
        output: &mut W,
        data_type: &DataType,
        column: EncodedColumn<'_>,
        plan: &EncodedJsonPlan,
    ) -> (result: Result<(), Error>)
        requires
            old(self).wf(),
            plan.wf(),
            column@.wf(),
        ensures
            final(self).wf(),
            final(self).columns_written() == old(self).columns_written(),
            writes(*old(output), *final(output), result, column_json(*data_type, column@, plan@)),
    {
        let ghost c = column@;
        let ghost start = output.written();
        match column.encoding() {
            Encoding::AllNull => {
                proof {
                    lemma_null_rows_json(*data_type, c, plan@, c.rows);
                }
                write_empty_array(output, column.num_rows())
            },
            Encoding::Const => self.write_constant(output, data_type, column, plan),
            Encoding::Dict | Encoding::Plain => {
                let mut values: EncodedColumnValues<'_> = column.values();
                let rows: usize = column.num_rows();
                let mut row: usize = 0;
                assert(output.written() =~= start + Seq::<u8>::empty());
                while row < rows
                    invariant
                        output.never_fails() == old(output).never_fails(),
                        row <= rows,
                        rows == c.rows,
                        c == column@,
                        self.wf(),
                        self.columns_written() == old(self).columns_written(),
                        plan.wf(),
                        values.wf(),
                        values.column() == c,
                        values.row() == row,
                        !values.failed(),
                        c.encoding == ENCODING_DICT || c.encoding == ENCODING_PLAIN,
                        start == old(output).written(),
                        rows_json(*data_type, c, plan@, row as nat) matches Ok(text) && output.written() == start + text,
                    decreases rows - row,
                {
                    let ghost before = rows_json(*data_type, c, plan@, row as nat)->Ok_0;
                    let next: Option<Result<EncodedValueRef<'_>, Error>> = values.next();
                    proof {
                        if rows_json(*data_type, c, plan@, (row + 1) as nat) is Err {
                            lemma_rows_json_error(*data_type, c, plan@, (row + 1) as nat, c.rows);
                        }
                    }
                    match next {
                        None => {},
                        Some(Err(e)) => {
                            return Err(e);
                        },
                        Some(Ok(value)) => match write_encoded_value(output, data_type, value, row > 0, plan) {
                            Ok(_) => {
                                assert(value_text(*data_type, value@, plan@) matches Ok(text) && output.written() =~= start + (before
                                    + separated(row > 0, text)));
                            },
                            Err(e) => {
                                return Err(e);
                            },
                        },
                    }
                    row += 1;
                }
                Ok(())
            },
            Encoding::Other(code) => Err(Error::UnsupportedColumnEncoding { code }),
        }
    }

    /// Writes a column of the object.
    pub fn write_column<W: OutputFile>(
        &mut self,
        output: &mut W,
        name: &str,
        data_type: &DataType,
        column: EncodedColumn<'_>,
        plan: &EncodedJsonPlan,
    ) -> (result: Result<(), Error>)
        requires
            old(self).wf(),
            old(self).columns_written() < usize::MAX,
            plan.wf(),
            column@.wf(),
        ensures
            final(self).wf(),
            result is Ok ==> final(self).columns_written() == old(self).columns_written() + 1,
            writes(
                *old(output),
                *final(output),
                result,
                match column_json(*data_type, column@, plan@) {
                    Ok(text) => Ok(member(name@, text, old(self).columns_written() == 0)),
                    Err(e) => Err(e),
                },
            ),
    {
        let ghost start = output.written();
        let first: bool = self.column_index == 0;
        let quote: Vec<u8> = vec![34u8; 1];
        assert(quote@ =~= seq![34u8]);
        match write_separated(output, quote.as_slice(), !first) {
            Ok(_) => {},
            Err(e) => {
                return Err(e);
            },
        }
        self.column_index = self.column_index + 1;
        match write_escaped_utf8_chunked(output, name.as_bytes()) {
            Ok(_) => {},
            Err(e) => {
                return Err(e);
            },
        }
        let mut colon: Vec<u8> = vec![34u8; 3];
        colon.set(1, 58);
        assert(colon@ =~= seq![34u8, 58u8, 34u8]);
        match output.write(colon.as_slice()) {
            Ok(_) => {},
            Err(e) => {
                return Err(e);
            },
        }
        let ghost front = output.written();
        match self.write_array(output, data_type, column, plan) {
            Ok(_) => {},
            Err(e) => {
                return Err(e);
            },
        }
        let ghost text = column_json(*data_type, column@, plan@)->Ok_0;
        match output.write(quote.as_slice()) {
            Ok(_) => {},
            Err(e) => {
                return Err(e);
            },
        }
        assert(output.written() =~= start + member(name@, text, first));
        Ok(())
    }
}

proof fn lemma_members_error(reader: RowGroupReader, plan: PlanView, n: nat, m: nat)
    requires
        n <= m,
        members(reader, plan, n) is Err,
    ensures
        members(reader, plan, m) == members(reader, plan, n),
    decreases m,
{
    if n < m {
        lemma_members_error(reader, plan, n, (m - 1) as nat);
    }
}

/// Writes a row group as a JSON object with one text for each column.
pub fn write_encoded_supported<W: OutputFile>(row_group: &RowGroupReader, plan: &EncodedJsonPlan, output: &mut W) -> (result: Result<
    (),
    Error,
>)
    requires
        row_group.wf(),
        plan.wf(),
    ensures
        writes(*old(output), *final(output), result, object_json(*row_group, plan@)),
{
    let ghost reader = *row_group;
    let ghost start = output.written();
    let mut writer: EncodedJsonWriter = EncodedJsonWriter::new();
    let open: Vec<u8> = vec![123u8; 1];
    assert(open@ =~= seq![123u8]);
    match output.write(open.as_slice()) {
        Ok(_) => {},
        Err(e) => {
            return Err(e);
        },
    }
    let columns: Vec<usize> = match row_group.encoded_columns() {
        Ok(columns) => columns,
        Err(e) => {
            return Err(e);
        },
    };
    let count: usize = columns.len();
    let mut k: usize = 0;
    assert(output.written() =~= start + (seq![123u8] + Seq::<u8>::empty()));
    while k < count
        invariant
            output.never_fails() == old(output).never_fails(),
            k <= count,
            count == columns@.len(),
            reader == *row_group,
            reader.wf(),
            reader.nested_error() is None,
            columns@ == reader.visited(),
            forall|k: int| 0 <= k < columns@.len() ==> (#[trigger] columns@[k]) < reader.schema_of().columns@.len(),
            plan.wf(),
            writer.wf(),
            writer.columns_written() == k,
            start == old(output).written(),
            members(reader, plan@, k as nat) matches Ok(text) && output.written() == start + (seq![123u8] + text),
        decreases count - k,
    {
        let ghost before = members(reader, plan@, k as nat)->Ok_0;
        proof {
            assert(columns@[k as int] < reader.schema_of().columns@.len());
            if members(reader, plan@, (k + 1) as nat) is Err {
                lemma_members_error(reader, plan@, (k + 1) as nat, columns@.len());
            }
        }
        let column: EncodedColumn<'_> = match row_group.encoded_column(columns[k]) {
            Ok(column) => column,
            Err(e) => {
                return Err(e);
            },
        };
        let meta: &crate::schema::ColumnMeta = &row_group.schema().columns[columns[k]];
        match writer.write_column(output, meta.name.as_str(), &meta.data_type, column, plan) {
            Ok(_) => {},
            Err(e) => {
                return Err(e);
            },
        }
        proof {
            let text = column_json(written_type(reader, k as int), column@, plan@)->Ok_0;
            assert(output.written() =~= start + (seq![123u8] + (before + member(written_name(reader, k as int), text, k == 0))));
        }
        k += 1;
    }
    let ghost all = members(reader, plan@, columns@.len())->Ok_0;
    let close: Vec<u8> = vec![125u8; 1];
    assert(close@ =~= seq![125u8]);
    match output.write(close.as_slice()) {
        Ok(_) => {},
        Err(e) => {
            return Err(e);
        },
    }
    assert(output.written() =~= start + (seq![123u8] + all + seq![125u8]));
    Ok(())
}

} // verus!
