//! A column as it is stored, read value by value.
use vstd::prelude::*;
use crate::bits::{bytes_for, get_bit, read_bit_packed, stream_bit};
use crate::const_fill::{lemma_rank_bound, lemma_rank_step, rank_of};
use crate::error::Error;
use crate::format::{ENCODING_ALL_NULL, ENCODING_CONST, ENCODING_DICT, ENCODING_PLAIN};
use crate::raw_column::{dict_index, plain_pos};
use crate::reader::{encoding_of_code, Encoding};
use crate::types::DataType;
use crate::values::{
    checked_value, encoded_value_at, encoded_value_ref, read_encoded_value, EncodedValueRef, Value, ValueView,
};
use crate::visitor::{all_answered, all_taken, gives, is_visit, EntryClosure, EntryVisitor};

verus! {

/// What a stored column is, apart from where its parts are kept.
pub struct EncodedColumnView {
    pub dt: DataType,
    pub encoding: u8,
    pub has_nulls: bool,
    pub null_bitmap: Seq<u8>,
    pub const_value: ValueView,
    pub dict: Seq<ValueView>,
    pub bit_width: nat,
    pub data: Seq<u8>,
    pub cursor: int,
    pub rows: nat,
}

pub open spec fn value_views(values: Seq<Value>) -> Seq<ValueView> {
    Seq::new(values.len(), |i: int| values[i]@)
}

impl EncodedColumnView {
    pub open spec fn wf(self) -> bool {
        &&& self.has_nulls && self.encoding != ENCODING_ALL_NULL ==> self.rows <= 8 * self.null_bitmap.len()
        &&& self.bit_width <= 32
        &&& self.cursor >= 0
    }

    /// Which rows are null.
    pub open spec fn nulls(self) -> Seq<bool> {
        Seq::new(
            self.rows,
            |r: int| self.encoding == ENCODING_ALL_NULL || (self.has_nulls && stream_bit(self.null_bitmap, r)),
        )
    }

    /// The index of item `k` in the dictionary.
    pub open spec fn index_at(self, k: int) -> Result<nat, Error> {
        let end = (k + 1) * self.bit_width;
        if end > usize::MAX {
            Err(Error::DictIndexOverflow)
        } else if self.cursor + bytes_for(end) > self.data.len() {
            Err(Error::TruncatedDictIndexes)
        } else {
            let index = dict_index(self.data, self.cursor, self.bit_width, k);
            if index < self.dict.len() {
                Ok(index)
            } else {
                Err(Error::CorruptDictIndex)
            }
        }
    }

    /// Item `k` of the column.
    pub open spec fn item_at(self, k: int) -> Result<ValueView, Error> {
        if self.encoding == ENCODING_CONST {
            checked_value(self.dt, self.const_value)
        } else if self.encoding == ENCODING_DICT {
            match self.index_at(k) {
                Err(e) => Err(e),
                Ok(index) => checked_value(self.dt, self.dict[index as int]),
            }
        } else if self.encoding == ENCODING_PLAIN {
            match encoded_value_at(self.dt, self.data, plain_pos(self.dt, self.data, self.cursor, k as nat)) {
                Err(e) => Err(e),
                Ok((v, _)) => Ok(v),
            }
        } else {
            Err(Error::UnsupportedEncoding { code: self.encoding })
        }
    }

    /// The value in row `r`, where the rows before it could be read.
    pub open spec fn value_at(self, r: int) -> Result<ValueView, Error> {
        if self.nulls()[r] {
            Ok(ValueView::Null)
        } else {
            self.item_at(rank_of(self.nulls(), r))
        }
    }

    /// What is wrong with the first `n` indexes: the first bad one.
    pub open spec fn index_error(self, n: nat) -> Option<Error>
        decreases n,
    {
        if n == 0 {
            None
        } else {
            match self.index_error((n - 1) as nat) {
                Some(e) => Some(e),
                None => match self.index_at(n - 1) {
                    Err(e) => Some(e),
                    Ok(_) => None,
                },
            }
        }
    }

    /// The entries of the dictionary as values of the column, where they are some.
    pub open spec fn entries(self) -> Seq<Result<ValueView, Error>> {
        Seq::new(self.dict.len(), |j: int| checked_value(self.dt, self.dict[j]))
    }

    pub proof fn lemma_index_error(self, n: nat, m: nat)
        requires
            n <= m,
            self.index_error(n) is Some,
        ensures
            self.index_error(m) == self.index_error(n),
        decreases m,
    {
        if n < m {
            self.lemma_index_error(n, (m - 1) as nat);
        }
    }
}

/// A column as it is stored.
#[derive(Clone, Copy)]
pub struct EncodedColumn<'a> {
    data_type: &'a DataType,
    encoding: u8,
    has_nulls: bool,
    null_bitmap: &'a [u8],
    const_value: &'a Value,
    dict_values: &'a [Value],
    dict_bit_width: usize,
    data: &'a [u8],
    data_cursor: usize,
    num_rows: usize,
}

impl<'a> View for EncodedColumn<'a> {
    type V = EncodedColumnView;

    closed spec fn view(&self) -> EncodedColumnView {
        EncodedColumnView {
            dt: *self.data_type,
            encoding: self.encoding,
            has_nulls: self.has_nulls,
            null_bitmap: self.null_bitmap@,
            const_value: self.const_value@,
            dict: value_views(self.dict_values@),
            bit_width: self.dict_bit_width as nat,
            data: self.data@,
            cursor: self.data_cursor as int,
            rows: self.num_rows as nat,
        }
    }
}

/// Reads an index, if the data hold it.
fn read_bit_packed_checked(buf: &[u8], byte_base: usize, bit_offset: usize, bit_width: usize) -> (result: Result<usize, Error>)
    requires
        bit_width <= 32,
    ensures
        bit_offset + bit_width > usize::MAX ==> result == Err::<usize, Error>(Error::DictIndexOverflow),
        bit_offset + bit_width <= usize::MAX && byte_base + bytes_for(bit_offset + bit_width) > buf.len() ==> result == Err::<
            usize,
            Error,
        >(Error::TruncatedDictIndexes),
        bit_offset + bit_width <= usize::MAX && byte_base + bytes_for(bit_offset + bit_width) <= buf.len() ==> (result matches Ok(
            index,
        ) && index == crate::bits::unpacked(buf@, 8 * byte_base + bit_offset, bit_width as nat)),
{
    let bit_end: usize = match bit_offset.checked_add(bit_width) {
        Some(end) => end,
        None => {
            return Err(Error::DictIndexOverflow);
        },
    };
    let bytes: usize = crate::bits::byte_count(bit_end);
    if byte_base > buf.len() || bytes > buf.len() - byte_base {
        return Err(Error::TruncatedDictIndexes);
    }
    Ok(read_bit_packed(buf, byte_base, bit_offset, bit_width))
}

impl<'a> EncodedColumn<'a> {
    pub fn new(
        data_type: &'a DataType,
        encoding: u8,
        has_nulls: bool,
        null_bitmap: &'a [u8],
        const_value: &'a Value,
        dict_values: &'a [Value],
        dict_bit_width: usize,
        data: &'a [u8],
        data_cursor: usize,
        num_rows: usize,
    ) -> (column: Self)
        requires
            has_nulls && encoding != ENCODING_ALL_NULL ==> num_rows <= 8 * null_bitmap.len(),
            dict_bit_width <= 32,
        ensures
            column@.wf(),
            column@ == (EncodedColumnView {
                dt: *data_type,
                encoding,
                has_nulls,
                null_bitmap: null_bitmap@,
                const_value: const_value@,
                dict: value_views(dict_values@),
                bit_width: dict_bit_width as nat,
                data: data@,
                cursor: data_cursor as int,
                rows: num_rows as nat,
            }),
    {
        EncodedColumn {
            data_type,
            encoding,
            has_nulls,
            null_bitmap,
            const_value,
            dict_values,
            dict_bit_width,
            data,
            data_cursor,
            num_rows,
        }
    }

    pub fn data_type(&self) -> (dt: &DataType)
        ensures
            *dt == self@.dt,
    {
        self.data_type
    }

    /// How the column is encoded.
    pub fn encoding(&self) -> (encoding: Encoding)
        ensures
            encoding == encoding_of_code(self@.encoding),
    {
        Encoding::from_code(self.encoding)
    }

    pub fn num_rows(&self) -> (rows: usize)
        ensures
            rows == self@.rows,
    {
        self.num_rows
    }

    /// At least one row is null.
    pub fn has_nulls(&self) -> (nulls: bool)
        requires
            self@.wf(),
        ensures
            nulls == (exists|r: int| 0 <= r < self@.rows && #[trigger] self@.nulls()[r]),
    {
        let mut row: usize = 0;
        while row < self.num_rows
            invariant
                row <= self.num_rows,
                self@.wf(),
                self@.rows == self.num_rows,
                forall|r: int| 0 <= r < row ==> !#[trigger] self@.nulls()[r],
            decreases self.num_rows - row,
        {
            if self.is_null(row) {
                return true;
            }
            row += 1;
        }
        false
    }

    /// The bitmap of nulls, where there is one; a set bit tells that a row is null.
    pub fn null_bitmap(&self) -> (bitmap: Option<&'a [u8]>)
        ensures
            bitmap is Some == self@.has_nulls,
            bitmap matches Some(b) ==> b@ == self@.null_bitmap,
    {
        if self.has_nulls {
            Some(self.null_bitmap)
        } else {
            None
        }
    }

    pub fn is_null(&self, row: usize) -> (null: bool)
        requires
            self@.wf(),
            row < self@.rows,
        ensures
            null == self@.nulls()[row as int],
    {
        self.encoding == ENCODING_ALL_NULL || (self.has_nulls && get_bit(self.null_bitmap, row))
    }

    /// The value of a constant column.
    pub fn constant(&self) -> (result: Result<Option<EncodedValueRef<'a>>, Error>)
        ensures
            self@.encoding != ENCODING_CONST ==> result == Ok::<Option<EncodedValueRef<'a>>, Error>(None),
            self@.encoding == ENCODING_CONST ==> match checked_value(self@.dt, self@.const_value) {
                Ok(v) => result matches Ok(Some(value)) && value@ == v,
                Err(e) => result == Err::<Option<EncodedValueRef<'a>>, Error>(e),
            },
    {
        if self.encoding != ENCODING_CONST {
            return Ok(None);
        }
        match encoded_value_ref(self.data_type, self.const_value) {
            Ok(value) => Ok(Some(value)),
            Err(e) => Err(e),
        }
    }

    /// The values in the order of the rows.
    pub fn values(&self) -> (values: EncodedColumnValues<'a>)
        requires
            self@.wf(),
        ensures
            values.wf(),
            values.column() == self@,
            values.row() == 0,
            !values.failed(),
    {
        proof {
            lemma_rank_bound(self@.nulls(), 0);
            assert(0 * self@.bit_width == 0) by (nonlinear_arith);
        }
        EncodedColumnValues { column: *self, row: 0, data_cursor: self.data_cursor, bit_offset: 0, done: false }
    }

    /// The number of entries of the dictionary.
    pub fn dict_len(&self) -> (len: usize)
        ensures
            len == self@.dict.len(),
    {
        self.dict_values.len()
    }

    /// An entry of the dictionary.
    pub fn dict_entry(&self, index: usize) -> (result: Result<EncodedValueRef<'a>, Error>)
        requires
            index < self@.dict.len(),
        ensures
            match checked_value(self@.dt, self@.dict[index as int]) {
                Ok(v) => result matches Ok(value) && value@ == v,
                Err(e) => result matches Err(x) && x == e,
            },
    {
        encoded_value_ref(self.data_type, &self.dict_values[index])
    }

    /// Checks that each row that is not null has the index of an entry.
    pub fn check_indexes(&self) -> (result: Result<(), Error>)
        requires
            self@.wf(),
        ensures
            match self@.index_error(crate::const_fill::count_valid(self@.nulls())) {
                None => result is Ok,
                Some(e) => result == Err::<(), Error>(e),
            },
    {
        let ghost column = self@;
        let ghost nulls = column.nulls();
        let ghost total = crate::const_fill::count_valid(nulls);
        let ghost width = column.bit_width;
        let mut bit_offset: usize = 0;
        let ghost mut k: int = 0;
        let mut row: usize = 0;
        proof {
            lemma_rank_bound(nulls, 0);
            assert(0 * width == 0) by (nonlinear_arith);
        }
        while row < self.num_rows
            invariant
                row <= self.num_rows,
                column == self@,
                column.wf(),
                nulls == column.nulls(),
                total == crate::const_fill::count_valid(nulls),
                width == column.bit_width,
                width == self.dict_bit_width,
                k == rank_of(nulls, row as int),
                k >= 0,
                bit_offset == k * width,
                column.index_error(k as nat) is None,
            decreases self.num_rows - row,
        {
            proof {
                lemma_rank_step(nulls, row as int);
                lemma_rank_bound(nulls, row as int);
            }
            if !self.is_null(row) {
                proof {
                    assert((k + 1) * width == k * width + width) by (nonlinear_arith);
                }
                match read_bit_packed_checked(self.data, self.data_cursor, bit_offset, self.dict_bit_width) {
                    Err(e) => {
                        proof {
                            column.lemma_index_error((k + 1) as nat, total);
                        }
                        return Err(e);
                    },
                    Ok(index) => {
                        bit_offset = bit_offset + self.dict_bit_width;
                        if index >= self.dict_values.len() {
                            proof {
                                column.lemma_index_error((k + 1) as nat, total);
                            }
                            return Err(Error::CorruptDictIndex);
                        }
                    },
                }
                proof {
                    k = k + 1;
                }
            }
            row += 1;
        }
        proof {
            lemma_rank_bound(nulls, self.num_rows as int);
        }
        Ok(())
    }

    /// What a visit of the dictionary gives when every entry was taken.
    pub open spec fn checked_indexes(&self) -> Result<bool, Error> {
        match self@.index_error(crate::const_fill::count_valid(self@.nulls())) {
            None => Ok(true),
            Some(e) => Err(e),
        }
    }

    /// Hands each entry of the dictionary to `visitor` once, in order, and then checks the index of
    /// each row. Says no of a column without a dictionary, and then hands nothing over.
    pub fn visit_dictionary_with<V: EntryVisitor<'a>>(&self, visitor: &mut V) -> (result: Result<bool, Error>)
        requires
            self@.wf(),
            old(visitor).is_ready(),
        ensures
            final(visitor).is_ready(),
            self@.encoding != ENCODING_DICT ==> result == Ok::<bool, Error>(false) && *final(visitor) == *old(visitor),
            self@.encoding == ENCODING_DICT ==> exists|calls: Seq<(ValueView, Result<(), Error>)>|
                final(visitor).calls() == old(visitor).calls() + calls && all_answered(old(visitor).answers(), calls)
                    && #[trigger] is_visit(self@.entries(), calls, self.checked_indexes(), result),
    {
        if self.encoding != ENCODING_DICT {
            return Ok(false);
        }
        let ghost things = self@.entries();
        let ghost start = visitor.calls();
        let ghost mut calls: Seq<(ValueView, Result<(), Error>)> = Seq::empty();
        assert(start + calls =~= start);
        let mut i: usize = 0;
        while i < self.dict_values.len()
            invariant
                i <= self.dict_values.len(),
                i == calls.len(),
                self@.dict.len() == self.dict_values@.len(),
                self@.encoding == ENCODING_DICT,
                things == self@.entries(),
                visitor.is_ready(),
                start == old(visitor).calls(),
                visitor.calls() == start + calls,
                visitor.answers() == old(visitor).answers(),
                all_answered(old(visitor).answers(), calls),
                all_taken(things, calls),
            decreases self.dict_values.len() - i,
        {
            match self.dict_entry(i) {
                Err(e) => {
                    assert(things[i as int] == Err::<ValueView, Error>(e));
                    assert(is_visit(things, calls, self.checked_indexes(), Err(e)));
                    return Err(e);
                },
                Ok(value) => {
                    assert(things[i as int] == Ok::<ValueView, Error>(value@));
                    let answer: Result<(), Error> = visitor.visit(value);
                    proof {
                        let before = calls;
                        calls = before.push((value@, answer));
                        assert(visitor.calls() =~= start + calls);
                        assert forall|k: int| 0 <= k < calls.len() - 1 implies (#[trigger] calls[k]).1 is Ok by {
                            assert(calls[k] == before[k]);
                        }
                        assert forall|k: int| 0 <= k < calls.len() implies things[k] == Ok::<ValueView, Error>((#[trigger] calls[k]).0) by {
                            if k < before.len() {
                                assert(calls[k] == before[k]);
                            }
                        }
                    }
                    match answer {
                        Err(e) => {
                            assert(is_visit(things, calls, self.checked_indexes(), Err(e)));
                            return Err(e);
                        },
                        Ok(_) => {},
                    }
                },
            }
            i += 1;
        }
        let result: Result<bool, Error> = match self.check_indexes() {
            Err(e) => Err(e),
            Ok(_) => Ok(true),
        };
        assert(is_visit(things, calls, self.checked_indexes(), result));
        result
    }

    /// Hands each entry of the dictionary to a closure, as `visit_dictionary_with` does to a visitor.
    pub fn visit_dictionary<F: FnMut(EncodedValueRef<'a>) -> Result<(), Error>>(&self, visitor: F) -> (result: Result<bool, Error>)
        requires
            self@.wf(),
            forall|v: EncodedValueRef<'a>| call_requires(visitor, (v,)),
        ensures
            self@.encoding != ENCODING_DICT ==> result == Ok::<bool, Error>(false),
            self@.encoding == ENCODING_DICT ==> exists|calls: Seq<(ValueView, Result<(), Error>)>| #[trigger]
                is_visit(self@.entries(), calls, self.checked_indexes(), result) && forall|i: int|
                    0 <= i < calls.len() ==> gives(visitor, (#[trigger] calls[i]).0, calls[i].1),
    {
        let mut recorded: EntryClosure<'a, F> = EntryClosure::new(visitor);
        let ghost answers = recorded.answers();
        let result: Result<bool, Error> = self.visit_dictionary_with(&mut recorded);
        proof {
            if self@.encoding == ENCODING_DICT {
                let none = Seq::<(ValueView, Result<(), Error>)>::empty();
                let calls = choose|calls: Seq<(ValueView, Result<(), Error>)>|
                    recorded.calls() == none + calls && all_answered(answers, calls) && #[trigger] is_visit(
                        self@.entries(),
                        calls,
                        self.checked_indexes(),
                        result,
                    );
                assert forall|i: int| 0 <= i < calls.len() implies gives(visitor, (#[trigger] calls[i]).0, calls[i].1) by {
                    assert(answers(calls[i].0, calls[i].1));
                }
            }
        }
        result
    }
}

pub open spec fn result_view<'a>(result: Result<EncodedValueRef<'a>, Error>) -> Result<ValueView, Error> {
    match result {
        Ok(value) => Ok(value@),
        Err(e) => Err(e),
    }
}

/// The values of a column, one after another.
pub struct EncodedColumnValues<'a> {
    column: EncodedColumn<'a>,
    row: usize,
    data_cursor: usize,
    bit_offset: usize,
    done: bool,
}

impl<'a> EncodedColumnValues<'a> {
    pub closed spec fn column(self) -> EncodedColumnView {
        self.column@
    }

    /// The row whose value comes next.
    pub closed spec fn row(self) -> int {
        self.row as int
    }

    /// A value could not be read, and no other will be.
    pub closed spec fn failed(self) -> bool {
        self.done
    }

    pub closed spec fn wf(self) -> bool {
        let c = self.column@;
        let k = rank_of(c.nulls(), self.row as int);
        &&& c.wf()
        &&& self.row <= c.rows
        &&& !self.done && c.encoding == ENCODING_DICT ==> self.bit_offset == k * c.bit_width
        &&& !self.done && c.encoding == ENCODING_PLAIN ==> self.data_cursor == plain_pos(c.dt, c.data, c.cursor, k as nat)
    }

    /// The value in the next row; none behind the last row or behind one that could not be read.
    pub fn next(&mut self) -> (next: Option<Result<EncodedValueRef<'a>, Error>>)
        requires
            old(self).wf(),
        ensures
            final(self).wf(),
            is_step(*old(self), next_view(next), *final(self)),
    {
        if self.done || self.row >= self.column.num_rows {
            return None;
        }
        let ghost c = self.column@;
        let ghost nulls = c.nulls();
        let ghost k = rank_of(nulls, self.row as int);
        proof {
            lemma_rank_step(nulls, self.row as int);
            lemma_rank_bound(nulls, self.row as int);
            assert((k + 1) * c.bit_width == k * c.bit_width + c.bit_width) by (nonlinear_arith);
        }
        let row: usize = self.row;
        self.row = self.row + 1;
        if self.column.is_null(row) {
            return Some(Ok(EncodedValueRef::Null));
        }
        let value: Result<EncodedValueRef<'a>, Error> = if self.column.encoding == ENCODING_CONST {
            encoded_value_ref(self.column.data_type, self.column.const_value)
        } else if self.column.encoding == ENCODING_DICT {
            match read_bit_packed_checked(
                self.column.data,
                self.column.data_cursor,
                self.bit_offset,
                self.column.dict_bit_width,
            ) {
                Err(e) => Err(e),
                Ok(index) => {
                    self.bit_offset = self.bit_offset + self.column.dict_bit_width;
                    if index >= self.column.dict_values.len() {
                        Err(Error::CorruptDictIndex)
                    } else {
                        encoded_value_ref(self.column.data_type, &self.column.dict_values[index])
                    }
                },
            }
        } else if self.column.encoding == ENCODING_PLAIN {
            match read_encoded_value(self.column.data_type, self.column.data, self.data_cursor) {
                Err(e) => Err(e),
                Ok((value, size)) => {
                    proof {
                        assert(plain_pos(c.dt, c.data, c.cursor, (k + 1) as nat) == self.data_cursor + size);
                    }
                    self.data_cursor = self.data_cursor + size;
                    Ok(value)
                },
            }
        } else {
            Err(Error::UnsupportedEncoding { code: self.column.encoding })
        };
        self.done = match &value {
            Ok(_) => false,
            Err(_) => true,
        };
        Some(value)
    }
}

pub open spec fn next_view<'a>(next: Option<Result<EncodedValueRef<'a>, Error>>) -> Option<Result<ValueView, Error>> {
    match next {
        Some(result) => Some(result_view(result)),
        None => None,
    }
}

/// What one call of `next` gives and leaves behind: the value of the row, as long as there is one
/// and the values before it could be read; nothing, and no change, behind that.
pub open spec fn is_step<'a>(
    before: EncodedColumnValues<'a>,
    next: Option<Result<ValueView, Error>>,
    after: EncodedColumnValues<'a>,
) -> bool {
    if before.failed() || before.row() >= before.column().rows {
        next is None && after == before
    } else {
        &&& next == Some(before.column().value_at(before.row()))
        &&& after.column() == before.column()
        &&& after.row() == before.row() + 1
        &&& after.failed() == (before.column().value_at(before.row()) is Err)
    }
}

/// The values of the first `n` rows can be read.
pub open spec fn rows_readable(column: EncodedColumnView, n: int) -> bool {
    forall|r: int| 0 <= r < n && r < column.rows ==> (#[trigger] column.value_at(r)) is Ok
}

proof fn lemma_run_state<'a>(states: Seq<EncodedColumnValues<'a>>, given: Seq<Option<Result<ValueView, Error>>>, k: int)
    requires
        states.len() == given.len() + 1,
        states[0].row() == 0 && !states[0].failed(),
        forall|i: int| 0 <= i < given.len() ==> is_step(states[i], #[trigger] given[i], states[i + 1]),
        0 <= k < states.len(),
    ensures
        states[k].column() == states[0].column(),
        states[k].failed() == !rows_readable(states[0].column(), k),
        !states[k].failed() ==> states[k].row() == if k < states[0].column().rows {
            k
        } else {
            states[0].column().rows as int
        },
    decreases k,
{
    let c = states[0].column();
    if k > 0 {
        lemma_run_state(states, given, k - 1);
        assert(is_step(states[k - 1], given[k - 1], states[k]));
        if rows_readable(c, k - 1) {
            if k - 1 < c.rows {
                assert(rows_readable(c, k) == c.value_at(k - 1) is Ok);
            } else {
                assert(rows_readable(c, k));
            }
        } else {
            let r = choose|r: int| 0 <= r < k - 1 && r < c.rows && !((#[trigger] c.value_at(r)) is Ok);
            assert(!(c.value_at(r) is Ok));
        }
    }
}

/// A run from the first row gives the value of each row in turn up to the last row or the first
/// that cannot be read, that one's error among them, and nothing behind that, however often it is
/// asked again.
pub proof fn run_gives_each_row<'a>(states: Seq<EncodedColumnValues<'a>>, given: Seq<Option<Result<ValueView, Error>>>, k: int)
    requires
        states.len() == given.len() + 1,
        states[0].row() == 0 && !states[0].failed(),
        forall|i: int| 0 <= i < given.len() ==> is_step(states[i], #[trigger] given[i], states[i + 1]),
        0 <= k < given.len(),
    ensures
        k < states[0].column().rows && rows_readable(states[0].column(), k) ==> given[k] == Some(states[0].column().value_at(k)),
        k >= states[0].column().rows || !rows_readable(states[0].column(), k) ==> given[k] is None,
{
    lemma_run_state(states, given, k);
}

} // verus!
