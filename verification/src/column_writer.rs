//! One physical column while it is written.
//!
//! A column is a sequence of cells, each empty (null) or with the bytes of a value. From the cells
//! follows how the column is encoded, and its bytes.
use vstd::prelude::*;
use vstd::arithmetic::power2::pow2;
use crate::bits::{all_below, bit_value, bit_width, byte_count, bytes_for, flag_values, index_width, lemma_index_width,
    lemma_index_width_bound, lemma_packed_by_bits, packed, packed_bit, packed_flags, set_bit, stream_bit, write_bit_packed};
use crate::codec::{be_bytes, be_value, lemma_be_bytes_of_value, pow256};
use crate::dictionary::{as_nats, bytes_equal, key_bytes, lemma_zero_bytes, ByteDict, CompactIndices, IncrementalFixedDict};
use crate::error::Error;
use crate::format::{ENCODING_ALL_NULL, ENCODING_CONST, ENCODING_DICT, ENCODING_PLAIN};
use crate::types::{fixed_width, width_of, DataType};
use crate::values::{extract_fixed_key, is_value, lemma_value_in_data, lemma_value_size, value_size, write_fixed_key_to_vec};
use crate::varint;
use crate::varint::varint_bytes;

verus! {

// ---------------------------------------------------------------- model

/// The cells of a column.
pub type Cells = Seq<Option<Seq<u8>>>;

/// The bytes of the cells that are not null, in order.
pub open spec fn present(cells: Cells) -> Seq<Seq<u8>>
    decreases cells.len(),
{
    if cells.len() == 0 {
        Seq::empty()
    } else {
        match cells.last() {
            Some(b) => present(cells.drop_last()).push(b),
            None => present(cells.drop_last()),
        }
    }
}

pub open spec fn null_flags(cells: Cells) -> Seq<bool> {
    Seq::new(cells.len(), |i: int| cells[i] is None)
}

/// Byte strings one after another.
pub open spec fn joined(values: Seq<Seq<u8>>) -> Seq<u8>
    decreases values.len(),
{
    if values.len() == 0 {
        Seq::empty()
    } else {
        joined(values.drop_last()) + values.last()
    }
}

/// Each byte string once, in the order in which they first come.
pub open spec fn distinct(values: Seq<Seq<u8>>) -> Seq<Seq<u8>>
    decreases values.len(),
{
    if values.len() == 0 {
        Seq::empty()
    } else {
        let d = distinct(values.drop_last());
        if d.contains(values.last()) {
            d
        } else {
            d.push(values.last())
        }
    }
}

/// Where `value` stands among the distinct ones.
pub open spec fn rank(entries: Seq<Seq<u8>>, value: Seq<u8>) -> int {
    choose|e: int| 0 <= e < entries.len() && entries[e] == value
}

pub open spec fn ranks(values: Seq<Seq<u8>>) -> Seq<nat> {
    Seq::new(values.len(), |i: int| rank(distinct(values), values[i]) as nat)
}

pub open spec fn all_same(values: Seq<Seq<u8>>) -> bool {
    forall|i: int| 0 <= i < values.len() ==> #[trigger] values[i] == values[0]
}

/// The limits of a dictionary.
#[derive(Clone, Copy)]
pub struct DictLimits {
    pub max_total_bytes: usize,
    pub max_entries: usize,
    pub seed: u64,
}

impl DictLimits {
    /// The number of entries fits the file format and the tables in memory.
    pub open spec fn wf(self) -> bool {
        self.max_entries <= u32::MAX && 4 * self.max_entries + 4 <= usize::MAX
    }
}

/// Values of one to eight bytes are told apart by number.
pub open spec fn has_fixed_keys(width: int) -> bool {
    0 < width <= 8
}

/// A dictionary of the values stays within the limits.
pub open spec fn dict_allowed(values: Seq<Seq<u8>>, width: int, limits: DictLimits) -> bool {
    let d = distinct(values);
    &&& limits.max_entries >= 2
    &&& d.len() <= limits.max_entries
    &&& if has_fixed_keys(width) {
        index_width(d.len()) < 8 * width
    } else {
        joined(d).len() <= limits.max_total_bytes
    }
}

/// How many bytes the values take with a dictionary.
pub open spec fn dict_size(values: Seq<Seq<u8>>) -> int {
    let d = distinct(values);
    varint_bytes(d.len()).len() + joined(d).len() + bytes_for((values.len() * index_width(d.len())) as int)
}

/// How the values are encoded.
pub open spec fn encoding_of(values: Seq<Seq<u8>>, width: int, limits: DictLimits) -> u8 {
    if values.len() == 0 {
        ENCODING_ALL_NULL
    } else if all_same(values) {
        ENCODING_CONST
    } else if dict_allowed(values, width, limits) && dict_size(values) < joined(values).len() {
        ENCODING_DICT
    } else {
        ENCODING_PLAIN
    }
}

/// The parts that make up an encoded column.
pub struct ColumnImage {
    pub encoding: u8,
    pub has_nulls: bool,
    pub const_value: Seq<u8>,
    pub dict_meta: Seq<u8>,
    pub null_bytes: Seq<u8>,
    pub data: Seq<u8>,
}

pub open spec fn column_image(cells: Cells, width: int, limits: DictLimits) -> ColumnImage {
    let values = present(cells);
    let encoding = encoding_of(values, width, limits);
    let has_nulls = encoding != ENCODING_ALL_NULL && values.len() < cells.len();
    let d = distinct(values);
    ColumnImage {
        encoding,
        has_nulls,
        const_value: if encoding == ENCODING_CONST {
            values[0]
        } else {
            Seq::empty()
        },
        dict_meta: if encoding == ENCODING_DICT {
            varint_bytes(d.len()) + joined(d)
        } else {
            Seq::empty()
        },
        null_bytes: if has_nulls {
            packed_flags(null_flags(cells))
        } else {
            Seq::empty()
        },
        data: if encoding == ENCODING_PLAIN {
            joined(values)
        } else if encoding == ENCODING_DICT {
            packed(ranks(values), index_width(d.len()))
        } else {
            Seq::empty()
        },
    }
}

pub open spec fn all_values(dt: DataType, values: Seq<Seq<u8>>) -> bool {
    forall|i: int| 0 <= i < values.len() ==> is_value(dt, #[trigger] values[i])
}

// ---------------------------------------------------------------- lemmas

pub proof fn lemma_present_len(cells: Cells)
    ensures
        present(cells).len() <= cells.len(),
    decreases cells.len(),
{
    if cells.len() > 0 {
        lemma_present_len(cells.drop_last());
    }
}

pub proof fn lemma_present_push(cells: Cells, cell: Option<Seq<u8>>)
    ensures
        present(cells.push(cell)) == match cell {
            Some(b) => present(cells).push(b),
            None => present(cells),
        },
{
    assert(cells.push(cell).drop_last() =~= cells);
}

pub proof fn lemma_joined_push(values: Seq<Seq<u8>>, value: Seq<u8>)
    ensures
        joined(values.push(value)) == joined(values) + value,
{
    assert(values.push(value).drop_last() =~= values);
}

pub proof fn lemma_joined_fixed(values: Seq<Seq<u8>>, width: nat)
    requires
        forall|i: int| 0 <= i < values.len() ==> (#[trigger] values[i]).len() == width,
    ensures
        joined(values).len() == values.len() * width,
    decreases values.len(),
{
    if values.len() > 0 {
        lemma_joined_fixed(values.drop_last(), width);
        assert(values.len() * width == (values.len() - 1) * width + width) by (nonlinear_arith)
            requires
                values.len() > 0,
        ;
    }
}

pub proof fn lemma_joined_distinct(values: Seq<Seq<u8>>)
    ensures
        joined(distinct(values)).len() <= joined(values).len(),
    decreases values.len(),
{
    if values.len() > 0 {
        lemma_joined_distinct(values.drop_last());
        lemma_joined_push(distinct(values.drop_last()), values.last());
    }
}

pub proof fn lemma_distinct_push(values: Seq<Seq<u8>>, value: Seq<u8>)
    ensures
        distinct(values.push(value)) == if distinct(values).contains(value) {
            distinct(values)
        } else {
            distinct(values).push(value)
        },
{
    assert(values.push(value).drop_last() =~= values);
}

/// The distinct byte strings are those of the list, each once.
pub proof fn lemma_distinct(values: Seq<Seq<u8>>)
    ensures
        distinct(values).no_duplicates(),
        distinct(values).len() <= values.len(),
        forall|i: int| 0 <= i < values.len() ==> distinct(values).contains(#[trigger] values[i]),
        forall|e: int| 0 <= e < distinct(values).len() ==> values.contains(#[trigger] distinct(values)[e]),
        values.len() > 0 ==> distinct(values).len() > 0 && distinct(values)[0] == values[0],
    decreases values.len(),
{
    if values.len() > 0 {
        let front = values.drop_last();
        let last = values.last();
        lemma_distinct(front);
        let d = distinct(front);
        let all = distinct(values);
        assert forall|i: int| 0 <= i < values.len() implies all.contains(#[trigger] values[i]) by {
            if i < front.len() {
                assert(front[i] == values[i]);
                assert(d.contains(front[i]));
                let e = choose|e: int| 0 <= e < d.len() && d[e] == front[i];
                assert(all[e] == values[i]);
            } else if !d.contains(last) {
                assert(all[d.len() as int] == last);
            }
        }
        assert forall|e: int| 0 <= e < all.len() implies values.contains(#[trigger] all[e]) by {
            if e < d.len() {
                assert(front.contains(d[e]));
                let i = choose|i: int| 0 <= i < front.len() && front[i] == d[e];
                assert(values[i] == all[e]);
            } else {
                assert(values[values.len() - 1] == all[e]);
            }
        }
        if front.len() == 0 {
            assert(d.len() == 0);
        } else {
            assert(front[0] == values[0]);
        }
    }
}

pub proof fn lemma_rank(values: Seq<Seq<u8>>, value: Seq<u8>)
    requires
        distinct(values).contains(value),
    ensures
        0 <= rank(distinct(values), value) < distinct(values).len(),
        distinct(values)[rank(distinct(values), value)] == value,
        forall|e: int| 0 <= e < distinct(values).len() && #[trigger] distinct(values)[e] == value ==> e == rank(distinct(values), value),
{
    lemma_distinct(values);
}

proof fn lemma_index_width_mono(a: nat, b: nat)
    requires
        a <= b,
    ensures
        index_width(a) <= index_width(b),
{
    lemma_index_width(b);
    lemma_index_width_bound(a, index_width(b));
}

/// A value more does not bring a dictionary back within the limits.
proof fn lemma_not_allowed_again(values: Seq<Seq<u8>>, value: Seq<u8>, width: int, limits: DictLimits)
    requires
        !dict_allowed(values, width, limits),
    ensures
        !dict_allowed(values.push(value), width, limits),
{
    lemma_distinct_push(values, value);
    let d = distinct(values);
    lemma_index_width_mono(d.len(), distinct(values.push(value)).len());
    lemma_joined_push(d, value);
}

proof fn lemma_same_push(values: Seq<Seq<u8>>, value: Seq<u8>)
    ensures
        all_same(values.push(value)) == (values.len() == 0 || (all_same(values) && value == values[0])),
{
    let more = values.push(value);
    if values.len() > 0 {
        if all_same(more) {
            assert(more[values.len() as int] == more[0]);
            assert forall|i: int| 0 <= i < values.len() implies #[trigger] values[i] == values[0] by {
                assert(more[i] == more[0]);
            }
        }
        if all_same(values) && value == values[0] {
            assert forall|i: int| 0 <= i < more.len() implies #[trigger] more[i] == more[0] by {
                if i < values.len() {
                    assert(values[i] == values[0]);
                }
            }
        }
    }
}

proof fn lemma_distinct_of_same(values: Seq<Seq<u8>>)
    requires
        all_same(values),
        values.len() > 0,
    ensures
        distinct(values) == seq![values[0]],
    decreases values.len(),
{
    let front = values.drop_last();
    if front.len() > 0 {
        assert(values[values.len() - 1] == values[0]);
        assert forall|i: int| 0 <= i < front.len() implies #[trigger] front[i] == front[0] by {
            assert(values[i] == values[0]);
        }
        lemma_distinct_of_same(front);
        assert(distinct(front)[0] == values[0]);
        assert(distinct(front).contains(values.last()));
        assert(distinct(values) =~= seq![values[0]]);
    } else {
        assert(distinct(front) =~= Seq::empty());
        assert(distinct(values) =~= seq![values[0]]);
    }
}

/// The keys of values of `width` bytes.
pub open spec fn keys_of(values: Seq<Seq<u8>>) -> Seq<u64> {
    Seq::new(values.len(), |i: int| be_value(values[i]) as u64)
}

pub open spec fn all_of_len(values: Seq<Seq<u8>>, width: int) -> bool {
    forall|i: int| 0 <= i < values.len() ==> (#[trigger] values[i]).len() == width
}

proof fn lemma_pow256_bound(n: nat)
    requires
        n <= 8,
    ensures
        pow256(n) <= 0x1_0000_0000_0000_0000,
{
    crate::codec::lemma_pow256();
    if n == 0 {
        reveal_with_fuel(pow256, 1);
    }
    assert(n == 0 || n == 1 || n == 2 || n == 3 || n == 4 || n == 5 || n == 6 || n == 7 || n == 8);
}

proof fn lemma_key(value: Seq<u8>, width: int)
    requires
        0 < width <= 8,
        value.len() == width,
    ensures
        be_value(value) <= u64::MAX,
        be_bytes((be_value(value) as u64) as nat, width as nat) == value,
{
    lemma_be_bytes_of_value(value);
    lemma_pow256_bound(width as nat);
}

/// Values of one length are equal exactly if their keys are.
proof fn lemma_keys_tell_apart(a: Seq<u8>, b: Seq<u8>, width: int)
    requires
        0 < width <= 8,
        a.len() == width,
        b.len() == width,
    ensures
        (be_value(a) as u64 == be_value(b) as u64) == (a == b),
{
    lemma_key(a, width);
    lemma_key(b, width);
}

proof fn lemma_key_bytes(values: Seq<Seq<u8>>, width: int)
    requires
        0 < width <= 8,
        all_of_len(values, width),
    ensures
        key_bytes(keys_of(values), width as nat) == joined(values),
    decreases values.len(),
{
    if values.len() > 0 {
        let front = values.drop_last();
        assert(all_of_len(front, width)) by {
            assert forall|i: int| 0 <= i < front.len() implies (#[trigger] front[i]).len() == width by {
                assert(values[i].len() == width);
            }
        }
        lemma_key_bytes(front, width);
        assert(keys_of(values).drop_last() =~= keys_of(front));
        lemma_key(values.last(), width);
    }
}

pub proof fn lemma_values_of_width(dt: DataType, values: Seq<Seq<u8>>)
    requires
        width_of(dt) > 0,
        all_values(dt, values),
    ensures
        all_of_len(values, width_of(dt)),
{
    assert forall|i: int| 0 <= i < values.len() implies (#[trigger] values[i]).len() == width_of(dt) by {
        assert(is_value(dt, values[i]));
    }
}

proof fn lemma_distinct_of_len(values: Seq<Seq<u8>>, width: int)
    requires
        all_of_len(values, width),
    ensures
        all_of_len(distinct(values), width),
{
    lemma_distinct(values);
    let d = distinct(values);
    assert forall|e: int| 0 <= e < d.len() implies (#[trigger] d[e]).len() == width by {
        assert(values.contains(d[e]));
        let i = choose|i: int| 0 <= i < values.len() && values[i] == d[e];
        assert(values[i].len() == width);
    }
}

/// `entries` are the keys of the distinct values, and `list` says which of them each value is.
spec fn dict_matches(entries: Seq<u64>, list: Seq<usize>, values: Seq<Seq<u8>>) -> bool {
    &&& entries == keys_of(distinct(values))
    &&& list.len() == values.len()
    &&& forall|i: int|
        0 <= i < values.len() ==> #[trigger] list[i] < distinct(values).len() && distinct(values)[list[i] as int] == values[i]
}

proof fn lemma_dict_ranks(entries: Seq<u64>, list: Seq<usize>, values: Seq<Seq<u8>>)
    requires
        dict_matches(entries, list, values),
    ensures
        as_nats(list) == ranks(values),
{
    lemma_distinct(values);
    assert forall|i: int| 0 <= i < values.len() implies as_nats(list)[i] == ranks(values)[i] by {
        assert(list[i] < distinct(values).len());
        assert(distinct(values).contains(values[i]));
        lemma_rank(values, values[i]);
        assert(distinct(values)[list[i] as int] == values[i]);
    }
    assert(as_nats(list) =~= ranks(values));
}

proof fn lemma_dict_push(
    entries: Seq<u64>,
    list: Seq<usize>,
    values: Seq<Seq<u8>>,
    value: Seq<u8>,
    new_entries: Seq<u64>,
    index: usize,
    width: int,
)
    requires
        dict_matches(entries, list, values),
        0 < width <= 8,
        all_of_len(values, width),
        value.len() == width,
        entries.contains(be_value(value) as u64) ==> new_entries == entries && index < entries.len() && entries[index as int]
            == be_value(value) as u64,
        !entries.contains(be_value(value) as u64) ==> new_entries == entries.push(be_value(value) as u64) && index == entries.len(),
    ensures
        dict_matches(new_entries, list.push(index), values.push(value)),
        entries.contains(be_value(value) as u64) == distinct(values).contains(value),
{
    let d = distinct(values);
    let more = values.push(value);
    lemma_distinct_push(values, value);
    lemma_distinct_of_len(values, width);
    let key = be_value(value) as u64;
    if d.contains(value) {
        let e = choose|e: int| 0 <= e < d.len() && d[e] == value;
        assert(entries[e] == key);
    }
    if entries.contains(key) {
        let e = choose|e: int| 0 <= e < entries.len() && entries[e] == key;
        assert(d[e].len() == width);
        lemma_keys_tell_apart(d[e], value, width);
        assert(d[e] == value);
        assert(d[index as int].len() == width);
        lemma_keys_tell_apart(d[index as int], value, width);
    } else {
        assert(new_entries =~= keys_of(distinct(more)));
    }
    let longer = list.push(index);
    assert forall|i: int| 0 <= i < more.len() implies #[trigger] longer[i] < distinct(more).len() && distinct(more)[longer[i] as int]
        == more[i] by {
        if i < values.len() {
            assert(list[i] < d.len() && d[list[i] as int] == values[i]);
        }
    }
}

// ---------------------------------------------------------------- the column

#[derive(Clone, Copy, Debug, PartialEq, Eq, Structural)]
pub enum DictTracking {
    Pending,
    Active,
    Disabled,
}

/// What `prepare` makes of a column.
pub struct PreparedColumn {
    pub encoding: u8,
    pub has_nulls: bool,
    pub const_value: Vec<u8>,
    pub dict_meta: Vec<u8>,
    pub null_bytes: Vec<u8>,
    pub data: Vec<u8>,
}

impl View for PreparedColumn {
    type V = ColumnImage;

    open spec fn view(&self) -> ColumnImage {
        ColumnImage {
            encoding: self.encoding,
            has_nulls: self.has_nulls,
            const_value: self.const_value@,
            dict_meta: self.dict_meta@,
            null_bytes: self.null_bytes@,
            data: self.data@,
        }
    }
}

pub struct ColumnWriter {
    data_type: DataType,
    fixed_width: i32,
    null_bitmap: Vec<u8>,
    value_buffer: Vec<u8>,
    num_rows: usize,
    non_null_count: usize,
    const_tracking: bool,
    first_value_len: usize,
    fixed_dict: Option<IncrementalFixedDict>,
    byte_dict: Option<ByteDict>,
    dict_tracking: DictTracking,
    dict_total_bytes: usize,
    limits: DictLimits,
    cells: Ghost<Cells>,
}

impl ColumnWriter {
    pub closed spec fn cells(self) -> Cells {
        self.cells@
    }

    pub closed spec fn dt(self) -> DataType {
        self.data_type
    }

    pub closed spec fn dict_limits(self) -> DictLimits {
        self.limits
    }

    pub open spec fn image(self) -> ColumnImage {
        column_image(self.cells(), width_of(self.dt()), self.dict_limits())
    }

    spec fn bitmap_ok(self) -> bool {
        &&& self.num_rows == self.cells@.len()
        &&& self.num_rows <= 8 * self.null_bitmap.len()
        &&& forall|q: int|
            0 <= q < 8 * self.null_bitmap.len() ==> #[trigger] stream_bit(self.null_bitmap@, q) == (q < self.num_rows
                && self.cells@[q] is None)
    }

    spec fn dict_ok(self) -> bool {
        let values = present(self.cells@);
        let allowed = dict_allowed(values, self.fixed_width as int, self.limits);
        if self.const_tracking {
            &&& all_same(values)
            &&& self.dict_tracking is Pending
            &&& self.value_buffer@ == joined(values)
            &&& values.len() > 0 ==> self.first_value_len == values[0].len()
        } else {
            &&& !all_same(values)
            &&& !(self.dict_tracking is Pending)
            &&& (self.dict_tracking is Active) == allowed
            &&& if has_fixed_keys(self.fixed_width as int) && allowed {
                &&& self.value_buffer@.len() == 0
                &&& self.fixed_dict matches Some(dict) && dict.wf(self.limits.max_entries) && dict_matches(
                    dict.entries(),
                    dict.index_list(),
                    values,
                )
            } else {
                self.value_buffer@ == joined(values)
            }
            &&& !has_fixed_keys(self.fixed_width as int) && allowed ==> (self.byte_dict matches Some(dict) && dict.wf() && dict@
                == distinct(values)) && self.dict_total_bytes == joined(distinct(values)).len()
        }
    }

    pub closed spec fn wf(self) -> bool {
        &&& self.limits.wf()
        &&& self.fixed_width == width_of(self.data_type)
        &&& self.bitmap_ok()
        &&& self.non_null_count == present(self.cells@).len()
        &&& all_values(self.data_type, present(self.cells@))
        &&& self.dict_ok()
    }

    /// The cells hold values of the column's type.
    pub proof fn lemma_values(self)
        requires
            self.wf(),
        ensures
            all_values(self.dt(), present(self.cells())),
    {
    }

    pub fn new(data_type: DataType, limits: DictLimits) -> (column: Self)
        requires
            limits.wf(),
        ensures
            column.wf(),
            column.cells() == Cells::empty(),
            column.dt() == data_type,
            column.dict_limits() == limits,
    {
        let fixed_width: i32 = fixed_width(&data_type);
        ColumnWriter {
            data_type,
            fixed_width,
            null_bitmap: Vec::new(),
            value_buffer: Vec::new(),
            num_rows: 0,
            non_null_count: 0,
            const_tracking: true,
            first_value_len: 0,
            fixed_dict: None,
            byte_dict: None,
            dict_tracking: DictTracking::Pending,
            dict_total_bytes: 0,
            limits,
            cells: Ghost(Seq::empty()),
        }
    }

    /// Empties the column.
    pub fn reset(&mut self)
        requires
            old(self).wf(),
        ensures
            final(self).wf(),
            final(self).cells() == Cells::empty(),
            final(self).dt() == old(self).dt(),
            final(self).dict_limits() == old(self).dict_limits(),
    {
        self.null_bitmap = Vec::new();
        self.value_buffer.clear();
        self.num_rows = 0;
        self.non_null_count = 0;
        self.const_tracking = true;
        self.first_value_len = 0;
        self.fixed_dict = None;
        self.byte_dict = None;
        self.dict_tracking = DictTracking::Pending;
        self.dict_total_bytes = 0;
        self.cells = Ghost(Seq::empty());
    }

    pub fn num_rows(&self) -> (rows: usize)
        requires
            self.wf(),
        ensures
            rows == self.cells().len(),
    {
        self.num_rows
    }

    pub fn dict_tracking(&self) -> (tracking: DictTracking)
        requires
            self.wf(),
        ensures
            (tracking is Pending) == all_same(present(self.cells())),
            (tracking is Active) == (!all_same(present(self.cells())) && dict_allowed(
                present(self.cells()),
                width_of(self.dt()),
                self.dict_limits(),
            )),
    {
        self.dict_tracking
    }

    /// The number of entries of the dictionary that is kept.
    pub fn dict_entries(&self) -> (entries: Option<usize>)
        requires
            self.wf(),
        ensures
            entries matches Some(n) ==> n == distinct(present(self.cells())).len(),
            entries is Some == (!all_same(present(self.cells())) && dict_allowed(
                present(self.cells()),
                width_of(self.dt()),
                self.dict_limits(),
            )),
    {
        match self.dict_tracking {
            DictTracking::Active => {
                if self.fixed_width > 0 && self.fixed_width <= 8 {
                    match &self.fixed_dict {
                        Some(dict) => Some(dict.num_entries()),
                        None => None,
                    }
                } else {
                    match &self.byte_dict {
                        Some(dict) => Some(dict.len()),
                        None => None,
                    }
                }
            },
            _ => None,
        }
    }

    /// The bytes that are kept one after another; none while a dictionary of fixed-width values
    /// stands for them.
    pub fn buffered(&self) -> (bytes: &Vec<u8>)
        requires
            self.wf(),
        ensures
            bytes@ == (if has_fixed_keys(width_of(self.dt())) && !all_same(present(self.cells())) && dict_allowed(
                present(self.cells()),
                width_of(self.dt()),
                self.dict_limits(),
            ) {
                Seq::empty()
            } else {
                joined(present(self.cells()))
            }),
    {
        &self.value_buffer
    }

    pub fn non_null_count(&self) -> (count: usize)
        requires
            self.wf(),
        ensures
            count == present(self.cells()).len(),
    {
        self.non_null_count
    }

    /// A bit for each row, set where the row is null.
    pub fn null_bitmap(&self) -> (bitmap: &Vec<u8>)
        requires
            self.wf(),
        ensures
            self.cells().len() <= 8 * bitmap@.len(),
            forall|q: int|
                0 <= q < 8 * bitmap@.len() ==> #[trigger] stream_bit(bitmap@, q) == (q < self.cells().len() && self.cells()[q] is None),
    {
        &self.null_bitmap
    }

    /// Makes room for one row more in the bitmap.
    fn grow_bitmap(&mut self)
        requires
            old(self).wf(),
            old(self).num_rows < usize::MAX,
        ensures
            final(self).wf(),
            final(self).num_rows < 8 * final(self).null_bitmap.len(),
            final(self).cells() == old(self).cells(),
            final(self).dt() == old(self).dt(),
            final(self).dict_limits() == old(self).dict_limits(),
            final(self).num_rows == old(self).num_rows,
    {
        if self.num_rows / 8 >= self.null_bitmap.len() {
            let ghost before = self.null_bitmap@;
            self.null_bitmap.push(0u8);
            proof {
                lemma_zero_bytes(seq![0u8]);
                assert forall|q: int| 0 <= q < 8 * self.null_bitmap.len() implies #[trigger] stream_bit(self.null_bitmap@, q) == (q
                    < self.num_rows && self.cells@[q] is None) by {
                    if q < 8 * before.len() {
                        assert(stream_bit(before, q) == (q < self.num_rows && self.cells@[q] is None));
                    } else {
                        assert(!stream_bit(seq![0u8], q - 8 * before.len()));
                    }
                }
            }
        }
    }

    pub fn append_null(&mut self)
        requires
            old(self).wf(),
            old(self).cells().len() < usize::MAX,
        ensures
            final(self).wf(),
            final(self).cells() == old(self).cells().push(None),
            final(self).dt() == old(self).dt(),
            final(self).dict_limits() == old(self).dict_limits(),
    {
        self.grow_bitmap();
        let ghost before = *self;
        set_bit(&mut self.null_bitmap, self.num_rows);
        self.num_rows = self.num_rows + 1;
        self.cells = Ghost(self.cells@.push(None));
        proof {
            lemma_present_push(before.cells@, None);
        }
    }

    /// Appends a value.
    pub fn append_value(&mut self, value: &[u8])
        requires
            old(self).wf(),
            old(self).cells().len() < usize::MAX,
            is_value(old(self).dt(), value@),
        ensures
            final(self).wf(),
            final(self).cells() == old(self).cells().push(Some(value@)),
            final(self).dt() == old(self).dt(),
            final(self).dict_limits() == old(self).dict_limits(),
    {
        self.grow_bitmap();
        let ghost before = *self;
        let ghost values = present(before.cells@);
        let ghost more = values.push(value@);
        proof {
            lemma_present_push(before.cells@, Some(value@));
            lemma_present_len(before.cells@);
            lemma_joined_push(values, value@);
            lemma_distinct_push(values, value@);
            lemma_same_push(values, value@);
            if self.fixed_width > 0 {
                assert(value.len() == self.fixed_width);
                lemma_values_of_width(self.data_type, values);
            }
        }
        self.cells = Ghost(self.cells@.push(Some(value@)));
        self.num_rows = self.num_rows + 1;
        self.non_null_count = self.non_null_count + 1;
        assert(all_values(self.data_type, more)) by {
            assert forall|i: int| 0 <= i < more.len() implies is_value(self.data_type, #[trigger] more[i]) by {
                if i < values.len() {
                    assert(is_value(self.data_type, values[i]));
                }
            }
        }
        assert(self.bitmap_ok());
        if self.non_null_count == 1 {
            self.first_value_len = value.len();
            self.value_buffer.extend_from_slice(value);
            assert(self.value_buffer@ =~= joined(more));
            return;
        }
        if self.const_tracking {
            proof {
                lemma_first_in_joined(values);
            }
            let same: bool = value.len() == self.first_value_len && bytes_equal(
                vstd::slice::slice_subrange(self.value_buffer.as_slice(), 0, self.first_value_len),
                value,
            );
            self.value_buffer.extend_from_slice(value);
            assert(self.value_buffer@ =~= joined(more));
            if same {
                return;
            }
            self.const_tracking = false;
            proof {
                lemma_distinct_of_same(values);
                lemma_joined_distinct(more);
                assert(distinct(values)[0] == values[0]);
                assert(!distinct(values).contains(value@));
                assert(distinct(more) =~= seq![values[0], value@]);
                lemma_joined_two(values[0], value@);
                assert(values[0].len() + value.len() <= self.value_buffer.len());
            }
            self.activate_dict_tracking(value, Ghost(values));
            return;
        }
        self.track_dict_value(value, Ghost(values));
    }

    /// The second distinct value has come: a dictionary is started where it is allowed.
    fn activate_dict_tracking(&mut self, value: &[u8], Ghost(values): Ghost<Seq<Seq<u8>>>)
        requires
            old(self).limits.wf(),
            old(self).fixed_width == width_of(old(self).data_type),
            old(self).bitmap_ok(),
            old(self).non_null_count == values.len() + 1,
            present(old(self).cells@) == values.push(value@),
            values.len() > 0,
            all_same(values),
            value@ != values[0],
            all_values(old(self).data_type, values.push(value@)),
            old(self).value_buffer@ == joined(values.push(value@)),
            old(self).first_value_len == values[0].len(),
            old(self).fixed_width > 0 ==> all_of_len(values, old(self).fixed_width as int) && value.len() == old(self).fixed_width,
            !old(self).const_tracking,
            values[0].len() + value.len() <= usize::MAX,
        ensures
            final(self).wf(),
            final(self).cells() == old(self).cells(),
            final(self).dt() == old(self).dt(),
            final(self).dict_limits() == old(self).dict_limits(),
    {
        let ghost more = values.push(value@);
        let ghost width = self.fixed_width as int;
        proof {
            lemma_distinct_of_same(values);
            lemma_distinct_push(values, value@);
            assert(distinct(values)[0] == values[0]);
            assert(!distinct(values).contains(value@));
            assert(distinct(more) =~= seq![values[0], value@]);
            assert(more[values.len() as int] != more[0]);
            assert(!all_same(more));
            lemma_joined_two(values[0], value@);
            lemma_first_in_joined(more);
            reveal_with_fuel(index_width, 3);
        }
        if self.limits.max_entries < 2 {
            self.dict_tracking = DictTracking::Disabled;
            return;
        }
        if self.fixed_width > 0 && self.fixed_width <= 8 {
            let first_key: u64 = extract_fixed_key(self.value_buffer.as_slice(), 0, self.fixed_width);
            let current_key: u64 = extract_fixed_key(value, 0, self.fixed_width);
            proof {
                assert(more[0].len() == width);
                assert(self.value_buffer@.subrange(0, width) =~= values[0]);
                assert(value@.subrange(0, width) =~= value@);
                lemma_keys_tell_apart(values[0], value@, width);
            }
            let mut dict = IncrementalFixedDict::new(self.limits.max_entries, self.limits.seed);
            let _ = dict.lookup_or_insert(first_key, self.limits.max_entries);
            let ghost max = self.limits.max_entries;
            assert(dict.entries() =~= seq![first_key]);
            let mut i: usize = 0;
            while i < self.non_null_count - 1
                invariant
                    i <= self.non_null_count - 1,
                    self.non_null_count == values.len() + 1,
                    dict.wf(max),
                    dict.entries() == seq![first_key],
                    dict.index_list().len() == i,
                    forall|k: int| 0 <= k < i ==> #[trigger] dict.index_list()[k] == 0,
                decreases self.non_null_count - i,
            {
                dict.push_index(0, Ghost(max));
                i += 1;
            }
            let ghost list = dict.index_list();
            proof {
                assert(keys_of(distinct(values)) =~= seq![first_key]);
                assert forall|k: int| 0 <= k < values.len() implies #[trigger] list[k] < distinct(values).len() && distinct(
                    values,
                )[list[k] as int] == values[k] by {
                    assert(values[k] == values[0]);
                }
                assert(dict_matches(dict.entries(), list, values));
            }
            let ghost entries = dict.entries();
            match dict.lookup_or_insert(current_key, self.limits.max_entries) {
                Some(index) => {
                    proof {
                        dict.lemma_wf(max);
                        lemma_dict_push(entries, list, values, value@, dict.entries(), index, width);
                    }
                    dict.push_index(index, Ghost(max));
                },
                None => {
                    assert(entries[0] != current_key);
                    assert(!entries.contains(current_key));
                },
            }
            self.fixed_dict = Some(dict);
            self.value_buffer.clear();
            self.dict_tracking = DictTracking::Active;
            return;
        }
        let first: Vec<u8> = vstd::slice::slice_to_vec(
            vstd::slice::slice_subrange(self.value_buffer.as_slice(), 0, self.first_value_len),
        );
        assert(first@ =~= values[0]);
        if self.first_value_len > self.limits.max_total_bytes || self.first_value_len + value.len() > self.limits.max_total_bytes {
            self.dict_tracking = DictTracking::Disabled;
            return;
        }
        let mut dict = ByteDict::new();
        dict.insert(first.as_slice());
        assert(dict@ =~= seq![values[0]]);
        assert(!dict@.contains(value@)) by {
            assert(dict@[0] == values[0]);
        }
        dict.insert(value);
        assert(dict@ =~= distinct(more));
        self.dict_total_bytes = self.first_value_len + value.len();
        self.byte_dict = Some(dict);
        self.dict_tracking = DictTracking::Active;
    }

    /// One value more for the dictionary, which is given up when it gets out of its limits.
    fn track_dict_value(&mut self, value: &[u8], Ghost(values): Ghost<Seq<Seq<u8>>>)
        requires
            old(self).limits.wf(),
            old(self).fixed_width == width_of(old(self).data_type),
            old(self).bitmap_ok(),
            old(self).non_null_count == values.len() + 1,
            present(old(self).cells@) == values.push(value@),
            values.len() > 0,
            !all_same(values),
            !all_same(values.push(value@)),
            all_values(old(self).data_type, values.push(value@)),
            old(self).fixed_width > 0 ==> all_of_len(values, old(self).fixed_width as int) && value.len() == old(self).fixed_width,
            !old(self).const_tracking,
            !(old(self).dict_tracking is Pending),
            (old(self).dict_tracking is Active) == dict_allowed(values, old(self).fixed_width as int, old(self).limits),
            has_fixed_keys(old(self).fixed_width as int) && old(self).dict_tracking is Active ==> old(self).value_buffer@.len() == 0 && (old(
                self,
            ).fixed_dict matches Some(dict) && dict.wf(old(self).limits.max_entries) && dict_matches(
                dict.entries(),
                dict.index_list(),
                values,
            )),
            !(has_fixed_keys(old(self).fixed_width as int) && old(self).dict_tracking is Active) ==> old(self).value_buffer@ == joined(
                values,
            ),
            !has_fixed_keys(old(self).fixed_width as int) && old(self).dict_tracking is Active ==> (old(self).byte_dict matches Some(dict)
                && dict.wf() && dict@ == distinct(values)) && old(self).dict_total_bytes == joined(distinct(values)).len(),
        ensures
            final(self).wf(),
            final(self).cells() == old(self).cells(),
            final(self).dt() == old(self).dt(),
            final(self).dict_limits() == old(self).dict_limits(),
    {
        let ghost more = values.push(value@);
        let ghost width = self.fixed_width as int;
        proof {
            lemma_distinct_push(values, value@);
            lemma_joined_push(values, value@);
            lemma_joined_push(distinct(values), value@);
        }
        let active: bool = match self.dict_tracking {
            DictTracking::Active => true,
            _ => false,
        };
        if !active {
            proof {
                lemma_not_allowed_again(values, value@, width, self.limits);
            }
            self.value_buffer.extend_from_slice(value);
            assert(self.value_buffer@ =~= joined(more));
            return;
        }
        if self.fixed_width > 0 && self.fixed_width <= 8 {
            let key: u64 = extract_fixed_key(value, 0, self.fixed_width);
            assert(value@.subrange(0, width) =~= value@);
            let mut taken: Option<IncrementalFixedDict> = None;
            std::mem::swap(&mut taken, &mut self.fixed_dict);
            match taken {
                None => {},
                Some(dict) => {
                    let mut dict = dict;
                    let ghost max = self.limits.max_entries;
                    let ghost entries = dict.entries();
                    let ghost list = dict.index_list();
                    let found: Option<usize> = dict.lookup_or_insert(key, self.limits.max_entries);
                    let mut keep: bool = false;
                    match found {
                        Some(index) => {
                            proof {
                                dict.lemma_wf(max);
                                lemma_dict_push(entries, list, values, value@, dict.entries(), index, width);
                            }
                            if !dict.cannot_beat_plain(self.fixed_width) {
                                dict.push_index(index, Ghost(max));
                                keep = true;
                            }
                        },
                        None => {
                            proof {
                                lemma_not_in_keys(entries, values, value@, width);
                            }
                        },
                    }
                    if keep {
                        self.fixed_dict = Some(dict);
                        return;
                    }
                    assert(!dict_allowed(more, width, self.limits));
                    let mut raw: Vec<u8> = Vec::new();
                    let count: usize = dict.num_indices();
                    proof {
                        assert(dict.index_list() == list);
                        assert(dict.keys().take(count as int) =~= keys_of(values)) by {
                            assert forall|i: int| 0 <= i < values.len() implies dict.keys()[i] == keys_of(values)[i] by {
                                assert(list[i] < distinct(values).len());
                                assert(entries[list[i] as int] == be_value(values[i]) as u64);
                            }
                        }
                        lemma_key_bytes(values, width);
                    }
                    dict.write_plain_prefix(count, self.fixed_width, &mut raw, Ghost(max));
                    raw.extend_from_slice(value);
                    assert(raw@ =~= joined(more));
                    self.value_buffer = raw;
                    self.dict_tracking = DictTracking::Disabled;
                },
            }
            return;
        }
        self.value_buffer.extend_from_slice(value);
        assert(self.value_buffer@ =~= joined(more));
        proof {
            lemma_joined_distinct(more);
            assert(joined(distinct(more)).len() <= self.value_buffer.len());
        }
        let mut taken: Option<ByteDict> = None;
        std::mem::swap(&mut taken, &mut self.byte_dict);
        match taken {
            None => {},
            Some(dict) => {
                let mut dict = dict;
                match dict.lookup(value) {
                    Some(_) => {},
                    None => {
                        dict.insert(value);
                        self.dict_total_bytes = self.dict_total_bytes + value.len();
                    },
                }
                assert(dict@ =~= distinct(more));
                if dict.len() > self.limits.max_entries || self.dict_total_bytes > self.limits.max_total_bytes {
                    self.dict_tracking = DictTracking::Disabled;
                } else {
                    self.byte_dict = Some(dict);
                }
            },
        }
    }
}

impl ColumnWriter {
    /// The bitmap of the rows that are null.
    fn null_bytes(&self) -> (bytes: Vec<u8>)
        requires
            self.wf(),
        ensures
            bytes@ == packed_flags(null_flags(self.cells())),
    {
        let count: usize = byte_count(self.num_rows);
        let bytes: Vec<u8> = vstd::slice::slice_to_vec(
            vstd::slice::slice_subrange(self.null_bitmap.as_slice(), 0, count),
        );
        proof {
            let flags = null_flags(self.cells@);
            let values = flag_values(flags);
            vstd::arithmetic::power2::lemma2_to64();
            assert forall|q: int| 0 <= q < 8 * bytes.len() implies #[trigger] stream_bit(bytes@, q) == packed_bit(values, 1, q) by {
                assert(stream_bit(self.null_bitmap@, q) == (q < self.num_rows && self.cells@[q] is None));
                if q < flags.len() {
                    assert(values[q] == bit_value(flags[q]));
                }
            }
            lemma_packed_by_bits(bytes@, values, 1);
        }
        bytes
    }

    /// The packed indexes of values that a dictionary of byte strings holds.
    fn byte_dict_payload(&self, dict: &ByteDict) -> (out: Vec<u8>)
        requires
            self.wf(),
            dict.wf(),
            dict@ == distinct(present(self.cells())),
            self.value_buffer@ == joined(present(self.cells())),
            dict@.len() <= u32::MAX,
            self.cells().len() * 32 <= usize::MAX,
        ensures
            out@ == packed(ranks(present(self.cells())), index_width(dict@.len())),
    {
        let ghost values = present(self.cells@);
        let ghost all = ranks(values);
        let bw: usize = bit_width(dict.len());
        let mut indices = CompactIndices::for_indexes_up_to(dict.len());
        let mut pos: usize = 0;
        let mut k: usize = 0;
        assert(values.take(0) =~= Seq::empty());
        while k < self.non_null_count
            invariant
                self.wf(),
                dict.wf(),
                dict@ == distinct(values),
                values == present(self.cells@),
                all == ranks(values),
                self.value_buffer@ == joined(values),
                k <= self.non_null_count,
                self.non_null_count == values.len(),
                pos == joined(values.take(k as int)).len(),
                dict@.len() <= indices.largest(),
                indices@.len() == k,
                forall|i: int| 0 <= i < k ==> #[trigger] indices@[i] == all[i],
            decreases self.non_null_count - k,
        {
            proof {
                lemma_part_of_joined(values, k as int);
                assert(is_value(self.data_type, values[k as int]));
                lemma_value_in_data(self.data_type, self.value_buffer@, pos as int, values[k as int], Error::TruncatedVarint);
                lemma_value_size(self.data_type, self.value_buffer@, pos as int, Error::TruncatedVarint);
            }
            let len: usize = self.value_len_at(pos);
            assert(len == values[k as int].len());
            assert(pos + len <= self.value_buffer.len());
            let value: &[u8] = vstd::slice::slice_subrange(self.value_buffer.as_slice(), pos, pos + len);
            assert(value@ == values[k as int]);
            let index: usize = match dict.lookup(value) {
                Some(index) => index,
                None => 0,
            };
            proof {
                lemma_distinct(values);
                assert(distinct(values).contains(values[k as int]));
                lemma_rank(values, values[k as int]);
            }
            indices.push(index);
            pos = pos + len;
            k += 1;
        }
        proof {
            assert(as_nats(indices@) =~= all);
            lemma_present_len(self.cells@);
            lemma_dict_width(dict@.len());
            lemma_ranks_below(values);
            assert(values.len() * bw <= values.len() * 32) by (nonlinear_arith)
                requires
                    bw <= 32,
            ;
        }
        indices.write_bit_packed(bw)
    }

    /// The length of the buffered value at `pos`.
    fn value_len_at(&self, pos: usize) -> (len: usize)
        requires
            self.wf(),
            value_size(self.dt(), self.value_buffer@, pos as int, Error::TruncatedVarint) is Ok,
            pos < self.value_buffer.len(),
        ensures
            value_size(self.dt(), self.value_buffer@, pos as int, Error::TruncatedVarint) == Ok::<int, Error>(len as int),
    {
        if self.fixed_width > 0 {
            return self.fixed_width as usize;
        }
        let mut p: usize = pos;
        match varint::decode(self.value_buffer.as_slice(), &mut p) {
            Ok(len) => p - pos + len as usize,
            Err(_) => 0,
        }
    }

    /// Decides how the column is encoded, and makes the parts of it.
    pub fn prepare(&self) -> (prepared: PreparedColumn)
        requires
            self.wf(),
            self.cells().len() * 32 <= usize::MAX,
        ensures
            prepared@ == self.image(),
    {
        let ghost values = present(self.cells@);
        let ghost d = distinct(values);
        let ghost width = self.fixed_width as int;
        proof {
            lemma_present_len(self.cells@);
        }
        if self.non_null_count == 0 {
            let prepared = PreparedColumn {
                encoding: ENCODING_ALL_NULL,
                has_nulls: false,
                const_value: Vec::new(),
                dict_meta: Vec::new(),
                null_bytes: Vec::new(),
                data: Vec::new(),
            };
            return prepared;
        }
        let has_nulls: bool = self.non_null_count < self.num_rows;
        let null_bytes: Vec<u8> = if has_nulls {
            self.null_bytes()
        } else {
            Vec::new()
        };
        if self.const_tracking {
            proof {
                lemma_first_in_joined(values);
            }
            let const_value: Vec<u8> = vstd::slice::slice_to_vec(
                vstd::slice::slice_subrange(self.value_buffer.as_slice(), 0, self.first_value_len),
            );
            return PreparedColumn {
                encoding: ENCODING_CONST,
                has_nulls,
                const_value,
                dict_meta: Vec::new(),
                null_bytes,
                data: Vec::new(),
            };
        }
        let active: bool = match self.dict_tracking {
            DictTracking::Active => true,
            _ => false,
        };
        if active {
            if self.fixed_width > 0 && self.fixed_width <= 8 {
                if let Some(dict) = &self.fixed_dict {
                    return self.prepare_fixed_dict(dict, has_nulls, null_bytes);
                }
            } else {
                if let Some(dict) = &self.byte_dict {
                    proof {
                        lemma_dict_width(d.len());
                        assert(values.len() * index_width(d.len()) <= values.len() * 32) by (nonlinear_arith)
                            requires
                                index_width(d.len()) <= 32,
                        ;
                        lemma_distinct(values);
                    }
                    let packed_size: usize = byte_count(self.non_null_count * bit_width(dict.len()));
                    let encoded_size: usize = varint::encoded_size(dict.len() as u32).saturating_add(
                        self.dict_total_bytes,
                    ).saturating_add(packed_size);
                    if encoded_size < self.value_buffer.len() {
                        let mut dict_meta: Vec<u8> = Vec::new();
                        varint::encode(&mut dict_meta, dict.len() as u32);
                        let ghost head = dict_meta@;
                        let mut e: usize = 0;
                        assert(d.take(0) =~= Seq::empty());
                        assert(dict_meta@ =~= head + joined(d.take(0)));
                        while e < dict.len()
                            invariant
                                dict@ == d,
                                e <= dict@.len(),
                                dict_meta@ == head + joined(d.take(e as int)),
                            decreases dict@.len() - e,
                        {
                            let ghost before = dict_meta@;
                            dict_meta.extend_from_slice(dict.entry(e).as_slice());
                            proof {
                                assert(d.take(e + 1).drop_last() =~= d.take(e as int));
                                assert(dict_meta@ =~= head + joined(d.take(e + 1)));
                            }
                            e += 1;
                        }
                        assert(d.take(e as int) =~= d);
                        assert(head =~= varint_bytes(d.len()));
                        let data: Vec<u8> = self.byte_dict_payload(dict);
                        return PreparedColumn {
                            encoding: ENCODING_DICT,
                            has_nulls,
                            const_value: Vec::new(),
                            dict_meta,
                            null_bytes,
                            data,
                        };
                    }
                }
            }
        }
        PreparedColumn {
            encoding: ENCODING_PLAIN,
            has_nulls,
            const_value: Vec::new(),
            dict_meta: Vec::new(),
            null_bytes,
            data: vstd::slice::slice_to_vec(self.value_buffer.as_slice()),
        }
    }

    fn prepare_fixed_dict(&self, dict: &IncrementalFixedDict, has_nulls: bool, null_bytes: Vec<u8>) -> (prepared: PreparedColumn)
        requires
            self.wf(),
            self.cells().len() * 32 <= usize::MAX,
            has_fixed_keys(width_of(self.dt())),
            !all_same(present(self.cells())),
            dict_allowed(present(self.cells()), width_of(self.dt()), self.dict_limits()),
            self.fixed_dict == Some(*dict),
            has_nulls == (present(self.cells()).len() < self.cells().len()),
            null_bytes@ == (if has_nulls {
                packed_flags(null_flags(self.cells()))
            } else {
                Seq::empty()
            }),
        ensures
            prepared@ == self.image(),
    {
        let ghost values = present(self.cells@);
        let ghost d = distinct(values);
        let ghost width = self.fixed_width as int;
        let ghost max = self.limits.max_entries;
        proof {
            lemma_present_len(self.cells@);
            lemma_values_of_width(self.data_type, values);
            lemma_distinct_of_len(values, width);
            lemma_joined_fixed(values, width as nat);
            lemma_joined_fixed(d, width as nat);
            lemma_distinct(values);
            dict.lemma_wf(max);
            lemma_dict_width(d.len());
            lemma_dict_ranks(dict.entries(), dict.index_list(), values);
            lemma_ranks_below(values);
            assert(values.len() * index_width(d.len()) <= values.len() * 32) by (nonlinear_arith)
                requires
                    index_width(d.len()) <= 32,
            ;
            assert(values.len() * width <= values.len() * 32) by (nonlinear_arith)
                requires
                    width <= 32,
            ;
            assert(d.len() * width <= values.len() * width) by (nonlinear_arith)
                requires
                    d.len() <= values.len(),
                    width > 0,
            ;
        }
        let w: usize = self.fixed_width as usize;
        let bw: usize = bit_width(dict.num_entries());
        let packed_size: usize = byte_count(self.non_null_count * bw);
        let encoded_size: usize = varint::encoded_size(dict.num_entries() as u32) + dict.num_entries() * w + packed_size;
        if encoded_size >= self.non_null_count * w {
            let mut data: Vec<u8> = Vec::new();
            proof {
                lemma_key_bytes(values, width);
                let list = dict.index_list();
                assert(dict.keys().take(values.len() as int) =~= keys_of(values)) by {
                    assert forall|i: int| 0 <= i < values.len() implies dict.keys()[i] == keys_of(values)[i] by {
                        assert(list[i] < d.len());
                        assert(dict.entries()[list[i] as int] == be_value(d[list[i] as int]) as u64);
                    }
                }
            }
            dict.write_plain_prefix(self.non_null_count, self.fixed_width, &mut data, Ghost(max));
            assert(data@ =~= joined(values));
            return PreparedColumn {
                encoding: ENCODING_PLAIN,
                has_nulls,
                const_value: Vec::new(),
                dict_meta: Vec::new(),
                null_bytes,
                data,
            };
        }
        let mut dict_meta: Vec<u8> = Vec::new();
        varint::encode(&mut dict_meta, dict.num_entries() as u32);
        let ghost head = dict_meta@;
        let mut e: usize = 0;
        assert(d.take(0) =~= Seq::empty());
        assert(dict_meta@ =~= head + joined(d.take(0)));
        while e < dict.num_entries()
            invariant
                dict.entries() == keys_of(d),
                all_of_len(d, width),
                width == self.fixed_width,
                0 < width <= 8,
                e <= d.len(),
                dict_meta@ == head + joined(d.take(e as int)),
            decreases d.len() - e,
        {
            let ghost before = dict_meta@;
            write_fixed_key_to_vec(&mut dict_meta, dict.entry(e), self.fixed_width);
            proof {
                assert(d[e as int].len() == width);
                lemma_key(d[e as int], width);
                assert(d.take(e + 1).drop_last() =~= d.take(e as int));
                assert(dict_meta@ =~= head + joined(d.take(e + 1)));
            }
            e += 1;
        }
        assert(d.take(e as int) =~= d);
        assert(head =~= varint_bytes(d.len()));
        let data: Vec<u8> = dict.packed_indices(bw);
        PreparedColumn { encoding: ENCODING_DICT, has_nulls, const_value: Vec::new(), dict_meta, null_bytes, data }
    }
}

proof fn lemma_not_in_keys(entries: Seq<u64>, values: Seq<Seq<u8>>, value: Seq<u8>, width: int)
    requires
        entries == keys_of(distinct(values)),
        0 < width <= 8,
        all_of_len(values, width),
        value.len() == width,
        !entries.contains(be_value(value) as u64),
    ensures
        !distinct(values).contains(value),
{
    let d = distinct(values);
    if d.contains(value) {
        let e = choose|e: int| 0 <= e < d.len() && d[e] == value;
        assert(entries[e] == be_value(value) as u64);
    }
}

proof fn lemma_joined_one(a: Seq<u8>)
    ensures
        joined(seq![a]) == a,
{
    assert(seq![a] =~= Seq::empty().push(a));
    lemma_joined_push(Seq::empty(), a);
    assert(joined(Seq::<Seq<u8>>::empty()) + a =~= a);
}

proof fn lemma_joined_two(a: Seq<u8>, b: Seq<u8>)
    ensures
        joined(seq![a, b]) == a + b,
{
    assert(seq![a, b] =~= seq![a].push(b));
    lemma_joined_push(seq![a], b);
    lemma_joined_one(a);
}

/// Where the byte string `k` stands among the joined ones.
pub proof fn lemma_part_of_joined(values: Seq<Seq<u8>>, k: int)
    requires
        0 <= k < values.len(),
    ensures
        joined(values.take(k)).len() + values[k].len() == joined(values.take(k + 1)).len(),
        joined(values.take(k + 1)).len() <= joined(values).len(),
        joined(values).subrange(
            joined(values.take(k)).len() as int,
            (joined(values.take(k)).len() + values[k].len()) as int,
        ) == values[k],
    decreases values.len(),
{
    assert(values.take(k + 1).drop_last() =~= values.take(k));
    assert(values.take(k + 1).last() == values[k]);
    if k + 1 == values.len() {
        assert(values.take(k + 1) =~= values);
        let n = joined(values.take(k)).len() as int;
        assert(joined(values).subrange(n, n + values[k].len()) =~= values[k]);
    } else {
        let front = values.drop_last();
        lemma_part_of_joined(front, k);
        assert(front.take(k) =~= values.take(k));
        assert(front.take(k + 1) =~= values.take(k + 1));
        let n = joined(values.take(k)).len() as int;
        assert(joined(values).subrange(n, n + values[k].len()) =~= joined(front).subrange(n, n + values[k].len()));
    }
}

pub proof fn lemma_ranks_below(values: Seq<Seq<u8>>)
    ensures
        all_below(ranks(values), pow2(index_width(distinct(values).len()))),
{
    lemma_index_width(distinct(values).len());
    lemma_distinct(values);
    assert forall|i: int| 0 <= i < values.len() implies #[trigger] ranks(values)[i] < pow2(index_width(distinct(values).len())) by {
        assert(distinct(values).contains(values[i]));
        lemma_rank(values, values[i]);
    }
}

pub proof fn lemma_dict_width(n: nat)
    requires
        n <= u32::MAX,
    ensures
        index_width(n) <= 32,
{
    vstd::arithmetic::power2::lemma2_to64();
    lemma_index_width_bound(n, 32);
}

/// The first of the byte strings comes first.
pub proof fn lemma_first_in_joined(values: Seq<Seq<u8>>)
    requires
        values.len() > 0,
    ensures
        values[0].len() <= joined(values).len(),
        joined(values).subrange(0, values[0].len() as int) == values[0],
    decreases values.len(),
{
    let front = values.drop_last();
    if front.len() > 0 {
        lemma_first_in_joined(front);
        assert(joined(values).subrange(0, values[0].len() as int) =~= joined(front).subrange(0, values[0].len() as int));
    } else {
        assert(joined(front) =~= Seq::empty());
        assert(joined(values) =~= values[0]);
        assert(joined(values).subrange(0, values[0].len() as int) =~= values[0]);
    }
}

} // verus!
